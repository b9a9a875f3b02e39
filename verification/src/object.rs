//! The object model shared between compiled code and the collector: type
//! tags, prototypes, object headers and the initialisation descriptor.

use crate::bitmap::covers;
use vstd::prelude::*;

verus! {

/// Byte size of a reference.
pub const POINTER_SIZE: u32 = 8;

/// Byte size of an entry of a prototype's method table.
pub const FUNCTION_POINTER_SIZE: u32 = 8;

/// Byte offset of `size` in a prototype.
pub const PROTOTYPE_SIZE_OFFSET: u32 = 0;

/// Byte offset of `type_tag` in a prototype.
pub const PROTOTYPE_TAG_OFFSET: u32 = PROTOTYPE_SIZE_OFFSET + 4;

/// Byte offset of `reference_bitmap` in a prototype.
pub const PROTOTYPE_MAP_OFFSET: u32 = PROTOTYPE_TAG_OFFSET + 4;

/// Byte offset of the first entry of the method table, the initialiser.
pub const PROTOTYPE_INIT_OFFSET: u32 = PROTOTYPE_MAP_OFFSET + FUNCTION_POINTER_SIZE;

/// Byte size of the prototype of the root class, which has one method.
pub const OBJECT_PROTOTYPE_SIZE: u32 = PROTOTYPE_INIT_OFFSET + FUNCTION_POINTER_SIZE;

/// Number of fields in a prototype before the method table.
pub const NUM_PROTOTYPE_HEADERS: u32 = 3;

/// Byte offset of `prototype` in an object.
pub const OBJECT_PROTOTYPE_OFFSET: u32 = 0;

/// Byte offset of the mark in an object.
pub const OBJECT_GC_COUNT_OFFSET: u32 = OBJECT_PROTOTYPE_OFFSET + 8;

/// Byte offset of `gc_next` in an object.
pub const OBJECT_GC_NEXT_OFFSET: u32 = OBJECT_GC_COUNT_OFFSET + 8;

/// Byte offset of the first attribute in an ordinary object.
pub const OBJECT_ATTRIBUTE_OFFSET: u32 = OBJECT_GC_NEXT_OFFSET + 8;

/// Number of fields in an object header.
pub const NUM_OBJECT_HEADERS: u32 = 3;

/// Byte offset of `len` in an array object.
pub const ARRAY_LEN_OFFSET: u32 = OBJECT_ATTRIBUTE_OFFSET;

/// Byte offset of the first element in an array object.
pub const ARRAY_ELEMENT_OFFSET: u32 = ARRAY_LEN_OFFSET + 8;

/// Byte offset of `bottom_frame` in the initialisation descriptor.
pub const BOTTOM_FRAME_OFFSET: u32 = 0;

/// Byte offset of `global_section` in the initialisation descriptor.
pub const GLOBAL_SECTION_OFFSET: u32 = BOTTOM_FRAME_OFFSET + POINTER_SIZE;

/// Byte offset of `global_size` in the initialisation descriptor.
pub const GLOBAL_SIZE_OFFSET: u32 = GLOBAL_SECTION_OFFSET + POINTER_SIZE;

/// Byte offset of `global_map` in the initialisation descriptor.
pub const GLOBAL_MAP_OFFSET: u32 = GLOBAL_SIZE_OFFSET + 8;

/// Byte offset of `str_prototype` in the initialisation descriptor.
pub const STR_PROTOTYPE_OFFSET: u32 = GLOBAL_MAP_OFFSET + POINTER_SIZE;

/// Byte size of the initialisation descriptor.
pub const INIT_PARAM_SIZE: u32 = 40;

/// The null reference: a slot holding this word refers to no object.
pub const NULL: u64 = 0;

/// Index of the storage word that holds the prototype reference.
pub const PROTOTYPE_WORD: usize = 0;

/// Index of the storage word whose lowest byte is the mark.
pub const MARK_WORD: usize = 1;

/// Index of the storage word that links to the next allocated object.
pub const NEXT_WORD: usize = 2;

/// Index of the storage word that holds the length of an array object.
pub const LEN_WORD: usize = 3;

/// Words taken by the header of an ordinary object; attributes follow.
pub const OBJECT_HEADER_WORDS: usize = 3;

/// Words taken by the header of an array object; elements follow.
pub const ARRAY_HEADER_WORDS: usize = 4;

/// The word indices are the byte offsets that compiled code uses, counted
/// in words of eight bytes, and the descriptor ends after its last field.
pub proof fn lemma_word_indices_match_offsets()
    ensures
        8 * PROTOTYPE_WORD == OBJECT_PROTOTYPE_OFFSET,
        8 * MARK_WORD == OBJECT_GC_COUNT_OFFSET,
        8 * NEXT_WORD == OBJECT_GC_NEXT_OFFSET,
        8 * LEN_WORD == ARRAY_LEN_OFFSET,
        8 * OBJECT_HEADER_WORDS == OBJECT_ATTRIBUTE_OFFSET,
        8 * ARRAY_HEADER_WORDS == ARRAY_ELEMENT_OFFSET,
        NUM_OBJECT_HEADERS == OBJECT_HEADER_WORDS,
        INIT_PARAM_SIZE == STR_PROTOTYPE_OFFSET + POINTER_SIZE,
        PROTOTYPE_INIT_OFFSET == 16,
        OBJECT_PROTOTYPE_SIZE == 24,
{
}

/// Discriminator stored in every prototype.
#[derive(Clone, Copy, Debug, PartialEq, Eq, Structural)]
pub enum Type {
    /// An ordinary object with a fixed attribute area.
    Other,
    /// A boxed 32-bit integer.
    Int,
    /// A boxed boolean.
    Bool,
    /// An array of bytes.
    Str,
    /// An array of primitives (integers or booleans).
    ValueList,
    /// An array of object references.
    ObjList,
}

impl Type {
    /// The 32-bit value that stands for this tag in a prototype.
    pub open spec fn tag_value(self) -> int {
        match self {
            Type::Other => 0,
            Type::Int => 1,
            Type::Bool => 2,
            Type::Str => 3,
            Type::ValueList => -1,
            Type::ObjList => -2,
        }
    }

    /// The tag that a 32-bit value stands for, if any.
    pub open spec fn of_tag(tag: int) -> Option<Type> {
        if tag == 0 {
            Some(Type::Other)
        } else if tag == 1 {
            Some(Type::Int)
        } else if tag == 2 {
            Some(Type::Bool)
        } else if tag == 3 {
            Some(Type::Str)
        } else if tag == -1 {
            Some(Type::ValueList)
        } else if tag == -2 {
            Some(Type::ObjList)
        } else {
            None
        }
    }

    /// Whether instances of a prototype with this tag are arrays.
    pub open spec fn is_array_kind(self) -> bool {
        self == Type::Str || self == Type::ValueList || self == Type::ObjList
    }

    /// The 32-bit value that stands for this tag in a prototype.
    pub fn tag(self) -> (tag: i32)
        ensures
            tag == self.tag_value(),
    {
        match self {
            Type::Other => 0,
            Type::Int => 1,
            Type::Bool => 2,
            Type::Str => 3,
            Type::ValueList => -1,
            Type::ObjList => -2,
        }
    }

    /// The tag that a 32-bit value stands for, if any.
    pub fn from_tag(tag: i32) -> (ty: Option<Type>)
        ensures
            ty == Type::of_tag(tag as int),
    {
        if tag == 0 {
            Some(Type::Other)
        } else if tag == 1 {
            Some(Type::Int)
        } else if tag == 2 {
            Some(Type::Bool)
        } else if tag == 3 {
            Some(Type::Str)
        } else if tag == -1 {
            Some(Type::ValueList)
        } else if tag == -2 {
            Some(Type::ObjList)
        } else {
            None
        }
    }

    /// Encoding a tag and decoding it again gives the tag back.
    pub proof fn lemma_tag_round_trip(self)
        ensures
            Type::of_tag(self.tag_value()) == Some(self),
    {
    }
}

/// Header of an object prototype. One exists per class or array kind and is
/// shared by every instance.
#[derive(Clone, Debug, PartialEq, Eq)]
pub struct Prototype {
    /// Byte size of the attribute area (`>= 0`) for an ordinary object; the
    /// negated size of one element (`< 0`) for an array object.
    pub size: i32,
    /// What kind of object the instances are.
    pub type_tag: Type,
    /// Packed bitmap over the 8-byte slots of the attribute area: bit `i` is
    /// set when slot `i` holds a reference.
    pub reference_bitmap: Vec<u8>,
}

/// Header at the start of every allocated object.
#[derive(Clone, Copy, Debug, PartialEq, Eq, Structural)]
pub struct Object {
    /// Reference to the object's prototype.
    pub prototype: u64,
    /// 1 while the current collection has reached the object, else 0.
    pub gc_is_marked: u8,
    /// The next object in the list of all allocated objects, or `NULL`.
    pub gc_next: u64,
}

/// Header of an array object: an object header followed by the length.
#[derive(Clone, Copy, Debug, PartialEq, Eq, Structural)]
pub struct ArrayObject {
    /// The header that every object has.
    pub object: Object,
    /// Number of elements, not to be confused with the prototype's `size`.
    pub len: u64,
}

/// Initialisation descriptor handed to the runtime before anything else.
#[derive(Clone, Debug, PartialEq, Eq)]
pub struct InitParam {
    /// Address of the outermost frame, where the stack walk ends.
    pub bottom_frame: u64,
    /// Address of the first global slot.
    pub global_section: u64,
    /// Size of the globals region in bytes.
    pub global_size: u64,
    /// Packed bitmap over the 8-byte global slots: bit `i` is set when
    /// global slot `i` holds a reference.
    pub global_map: Vec<u8>,
    /// Reference to the prototype of strings.
    pub str_prototype: u64,
}

impl Prototype {
    /// What compiled code guarantees of a prototype: strings and lists are
    /// arrays and nothing else is; an ordinary object has a bitmap that
    /// describes each of its attribute slots; an integer object holds a
    /// 32-bit value and a boolean object one byte; the elements of a list
    /// of references are at least as wide as a reference.
    pub open spec fn wf(&self) -> bool {
        &&& self.type_tag.is_array_kind() <==> self.size < 0
        &&& self.type_tag == Type::Other ==> covers(self.reference_bitmap@, self.size / 8)
        &&& self.type_tag == Type::Int ==> self.size >= 4
        &&& self.type_tag == Type::Bool ==> self.size >= 1
        &&& self.type_tag == Type::ObjList ==> self.size <= -8
    }

    /// Number of 8-byte attribute slots of an ordinary object whose
    /// attribute area takes `size` bytes; none for an array.
    pub open spec fn slots(size: int) -> int {
        if size >= 0 {
            size / 8
        } else {
            0
        }
    }

    /// Computes the number of attribute slots for an attribute area of
    /// `size` bytes.
    pub fn attribute_slots(size: i32) -> (slots: u64)
        ensures
            slots == Prototype::slots(size as int),
    {
        if size >= 0 {
            (size / 8) as u64
        } else {
            0
        }
    }

    /// Checks that the prototype is well formed.
    pub fn is_wf(&self) -> (ok: bool)
        ensures
            ok == self.wf(),
    {
        let array_kind = match self.type_tag {
            Type::Str | Type::ValueList | Type::ObjList => true,
            _ => false,
        };
        if array_kind != (self.size < 0) {
            return false;
        }
        match self.type_tag {
            Type::Other => {
                let slots = self.size / 8;
                let needed: usize = if slots <= 0 {
                    0
                } else {
                    1 + ((slots - 1) / 8) as usize
                };
                needed <= self.reference_bitmap.len()
            },
            Type::Int => self.size >= 4,
            Type::Bool => self.size >= 1,
            Type::ObjList => self.size <= -8,
            _ => true,
        }
    }
}

impl Object {
    /// The header held in the first three words of an object's storage.
    pub open spec fn decode(words: Seq<u64>) -> Object {
        Object {
            prototype: words[PROTOTYPE_WORD as int],
            gc_is_marked: (words[MARK_WORD as int] % 256) as u8,
            gc_next: words[NEXT_WORD as int],
        }
    }
}

impl ArrayObject {
    /// The header held in the first four words of an array's storage.
    pub open spec fn decode(words: Seq<u64>) -> ArrayObject {
        ArrayObject { object: Object::decode(words), len: words[LEN_WORD as int] }
    }
}

/// The mark word `word` with its lowest byte replaced by `mark`.
pub open spec fn with_mark(word: u64, mark: u8) -> u64 {
    (word - word % 256 + mark) as u64
}

} // verus!
