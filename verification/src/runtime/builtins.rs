//! The built-in functions of the language that look into objects: `len`,
//! `print` and `input`. What they print or read is text here; writing it
//! out and reading it in is left to the caller.

use crate::layout::{object_bytes, object_units, units_for};
use crate::memory::Memory;
use crate::model::storing::lemma_payload_change_wf;
use crate::model::State;
use crate::object::{Type, ARRAY_HEADER_WORDS, LEN_WORD, NULL, OBJECT_HEADER_WORDS, PROTOTYPE_WORD};
use crate::runtime::allocator::{
    alloc_obj, collected_space, next_threshold, prepared, with_object,
};
use crate::runtime::collector::collectable;
use crate::runtime::Runtime;
use crate::text::{decimal, format_i32};
use crate::traps::Trap;
use crate::words::{
    byte_of, lemma_byte_of_packed, low_i32, pack_word, packed, unpack_byte, unpack_i32,
};
use vstd::prelude::*;
use vstd::string::StringExecFns;
use vstd::utf8::{decode_utf8, valid_utf8};

verus! {

/// Why a built-in function could not do its work.
#[derive(Debug, PartialEq, Eq)]
pub enum Failure {
    /// The program traps.
    Trap(Trap),
    /// The runtime cannot go on; the text says why.
    Fatal(String),
}

/// The text by which the standard library describes why `bytes` are not
/// UTF-8.
pub uninterp spec fn utf8_error_text(bytes: Seq<u8>) -> Seq<char>;

/// Decodes `bytes` as UTF-8 with `std::str::from_utf8`: the bytes are
/// accepted exactly when they are valid UTF-8, and the text is then what
/// they encode. When they are not, the error's own description comes
/// back, which depends on the bytes alone.
#[verifier::external_body]
fn decode_text(bytes: &Vec<u8>) -> (text: Result<String, String>)
    ensures
        text is Ok <==> valid_utf8(bytes@),
        text matches Ok(s) ==> s@ == decode_utf8(bytes@),
        text matches Err(m) ==> m@ == utf8_error_text(bytes@),
{
    match std::str::from_utf8(bytes.as_slice()) {
        Ok(s) => Ok(s.to_string()),
        Err(e) => Err(e.to_string()),
    }
}

/// The value of `len` as compiled code receives it: its low 32 bits, read
/// as a signed number.
pub open spec fn length_value(len: u64) -> int {
    low_i32(len)
}

/// The bytes that array object `r` holds: one for each element, packed
/// behind the header.
pub open spec fn array_bytes(s: State, r: u64) -> Seq<u8> {
    Seq::new(
        s.array_header(r).len as nat,
        |i: int| byte_of(s.objects[r][ARRAY_HEADER_WORDS + i / 8], i % 8),
    )
}

/// The text `True` or `False`.
pub open spec fn bool_text(value: bool) -> Seq<char> {
    if value {
        "True"@
    } else {
        "False"@
    }
}

/// The storage `words` of an array with the first `done` words behind the
/// header replaced by the packed `bytes`.
pub open spec fn stored(words: Seq<u64>, bytes: Seq<u8>, done: int) -> Seq<u64> {
    Seq::new(
        words.len(),
        |k: int|
            if ARRAY_HEADER_WORDS <= k < ARRAY_HEADER_WORDS + done {
                packed(bytes, k - ARRAY_HEADER_WORDS)
            } else {
                words[k]
            },
    )
}

/// The state with `bytes` stored in array object `r`, from its first
/// element on.
pub open spec fn with_bytes(s: State, r: u64, bytes: Seq<u8>) -> State {
    State {
        objects: s.objects.insert(r, stored(s.objects[r], bytes, units_for(bytes.len() as int))),
        ..s
    }
}

/// The bytes `line` without the line feeds and carriage returns at its
/// end.
pub open spec fn without_line_end(line: Seq<u8>) -> Seq<u8>
    decreases line.len(),
{
    if line.len() > 0 && (line.last() == 0x0a || line.last() == 0x0d) {
        without_line_end(line.drop_last())
    } else {
        line
    }
}

/// Number of bytes of `line` before the line feeds and carriage returns at
/// its end.
pub fn strip_line_end(line: &[u8]) -> (count: usize)
    ensures
        count <= line@.len(),
        line@.take(count as int) == without_line_end(line@),
{
    let mut count: usize = line.len();
    assert(line@.take(count as int) =~= line@);
    while count > 0 && (line[count - 1] == 0x0a || line[count - 1] == 0x0d)
        invariant
            count <= line@.len(),
            without_line_end(line@.take(count as int)) == without_line_end(line@),
        decreases count,
    {
        assert(line@.take(count as int).drop_last() =~= line@.take(count - 1));
        count -= 1;
    }
    count
}

/// The length of a string or list. Anything else, or null, is an invalid
/// argument.
pub fn len(rt: &Runtime, pointer: u64) -> (result: Result<i32, Trap>)
    requires
        rt.wf_collecting(),
        pointer == NULL || rt@.is_object(pointer),
    ensures
        match result {
            Ok(value) => pointer != NULL && rt@.prototype_of(pointer).type_tag.is_array_kind()
                && value == length_value(rt@.array_header(pointer).len),
            Err(trap) => trap == Trap::InvalidArg && (pointer == NULL || !rt@.prototype_of(
                pointer,
            ).type_tag.is_array_kind()),
        },
{
    if pointer == NULL {
        return Err(Trap::InvalidArg);
    }
    assert(rt@.objects.dom().contains(pointer));
    assert(rt.prototypes.len() == rt.prototypes@.len());
    let p = rt.heap.load(pointer, PROTOTYPE_WORD);
    match rt.prototypes[p as usize].type_tag {
        Type::Str | Type::ValueList | Type::ObjList => {
            Ok(unpack_i32(rt.heap.load(pointer, LEN_WORD)))
        },
        _ => Err(Trap::InvalidArg),
    }
}

/// Copies the bytes of array object `r` out of its storage.
fn read_bytes(rt: &Runtime, r: u64) -> (bytes: Vec<u8>)
    requires
        rt.wf_collecting(),
        rt@.is_object(r),
        rt@.prototype_of(r).size < 0,
    ensures
        bytes@ == array_bytes(rt@, r),
{
    assert(rt@.objects.dom().contains(r));
    let len = rt.heap.load(r, LEN_WORD);
    let mut bytes: Vec<u8> = Vec::new();
    let mut i: u64 = 0;
    proof {
        rt.heap.lemma_view();
        let size = rt@.prototype_of(r).size as int;
        assert((-size) * len >= len) by (nonlinear_arith)
            requires
                size < 0,
                len >= 0,
        ;
    }
    while i < len
        invariant
            i <= len,
            rt.wf_collecting(),
            rt@.objects.dom().contains(r),
            len == rt@.array_header(r).len,
            ARRAY_HEADER_WORDS + units_for(len as int) <= rt@.objects[r].len() <= usize::MAX,
            bytes@ == array_bytes(rt@, r).take(i as int),
        decreases len - i,
    {
        let word = rt.heap.load(r, ARRAY_HEADER_WORDS + (i / 8) as usize);
        bytes.push(unpack_byte(word, (i % 8) as u8));
        i += 1;
        assert(bytes@ =~= array_bytes(rt@, r).take(i as int));
    }
    assert(bytes@ =~= array_bytes(rt@, r));
    bytes
}

/// The line that `print` writes for the object at `pointer`: an integer
/// in decimal, a boolean as `True` or `False`, a string as it is. Null and
/// objects of other types are invalid arguments. A string that is not
/// UTF-8 is a fatal error.
pub fn print(rt: &Runtime, pointer: u64) -> (result: Result<String, Failure>)
    requires
        rt.wf_collecting(),
        pointer == NULL || rt@.is_object(pointer),
    ensures
        match result {
            Ok(line) => pointer != NULL && match rt@.prototype_of(pointer).type_tag {
                Type::Int => line@ == decimal(low_i32(rt@.slot(pointer, 0))),
                Type::Bool => line@ == bool_text(byte_of(rt@.slot(pointer, 0), 0) != 0),
                Type::Str => valid_utf8(array_bytes(rt@, pointer)) && line@ == decode_utf8(
                    array_bytes(rt@, pointer),
                ),
                _ => false,
            },
            Err(Failure::Trap(trap)) => trap == Trap::InvalidArg && (pointer == NULL || (
            rt@.prototype_of(pointer).type_tag != Type::Int && rt@.prototype_of(
                pointer,
            ).type_tag != Type::Bool && rt@.prototype_of(pointer).type_tag != Type::Str)),
            Err(Failure::Fatal(message)) => pointer != NULL && rt@.prototype_of(
                pointer,
            ).type_tag == Type::Str && !valid_utf8(array_bytes(rt@, pointer)) && message@
                == utf8_error_text(array_bytes(rt@, pointer)),
        },
{
    if pointer == NULL {
        return Err(Failure::Trap(Trap::InvalidArg));
    }
    assert(rt@.objects.dom().contains(pointer));
    assert(rt.prototypes.len() == rt.prototypes@.len());
    let p = rt.heap.load(pointer, PROTOTYPE_WORD);
    match rt.prototypes[p as usize].type_tag {
        Type::Int => {
            let word = rt.heap.load(pointer, OBJECT_HEADER_WORDS);
            Ok(format_i32(unpack_i32(word)))
        },
        Type::Bool => {
            let word = rt.heap.load(pointer, OBJECT_HEADER_WORDS);
            if unpack_byte(word, 0) != 0 {
                Ok(String::from_str("True"))
            } else {
                Ok(String::from_str("False"))
            }
        },
        Type::Str => {
            let bytes = read_bytes(rt, pointer);
            match decode_text(&bytes) {
                Ok(line) => Ok(line),
                Err(message) => Err(Failure::Fatal(message)),
            }
        },
        _ => Err(Failure::Trap(Trap::InvalidArg)),
    }
}

/// Makes a string object of the line `line` as it was read from standard
/// input: allocates a string as long as the line without the line feeds
/// and carriage returns at its end, and copies the bytes into it.
pub fn input(rt: &mut Runtime, memory: &Memory, line: &[u8], rbp: u64, rsp: u64) -> (pointer: u64)
    requires
        old(rt).wf(),
        old(rt)@.descriptor is Some,
        old(rt)@.descriptor->0.str_prototype < old(rt)@.prototypes.len(),
        old(rt)@.prototypes[old(rt)@.descriptor->0.str_prototype as int].type_tag == Type::Str,
        old(rt)@.allocated >= old(rt)@.threshold ==> collectable(
            old(rt)@,
            *memory,
            rbp as int,
            rsp as int,
        ),
        object_bytes(
            old(rt)@.prototypes[old(rt)@.descriptor->0.str_prototype as int].size as int,
            without_line_end(line@).len() as int,
        ) <= usize::MAX,
        prepared(old(rt)@, *memory, rbp as int, rsp as int).allocated + object_units(
            old(rt)@.prototypes[old(rt)@.descriptor->0.str_prototype as int].size as int,
            without_line_end(line@).len() as int,
        ) <= usize::MAX,
        old(rt)@.allocated >= old(rt)@.threshold ==> next_threshold(
            collected_space(old(rt)@, *memory, rbp as int, rsp as int),
        ) <= usize::MAX,
    ensures
        final(rt).wf(),
        pointer != NULL,
        !prepared(old(rt)@, *memory, rbp as int, rsp as int).is_object(pointer),
        final(rt)@ == with_bytes(
            with_object(
                prepared(old(rt)@, *memory, rbp as int, rsp as int),
                pointer,
                old(rt)@.descriptor->0.str_prototype,
                without_line_end(line@).len() as u64,
            ),
            pointer,
            without_line_end(line@),
        ),
        final(rt)@.array_header(pointer).len == without_line_end(line@).len(),
        array_bytes(final(rt)@, pointer) == without_line_end(line@),
{
    assert(line.len() == line@.len());
    let count = strip_line_end(line);
    let ghost text = without_line_end(line@);
    let str_proto = match &rt.init_param {
        Some(init_param) => init_param.str_prototype,
        None => 0,
    };
    let pointer = alloc_obj(rt, memory, str_proto, count as u64, rbp, rsp);
    let ghost base = rt@;
    proof {
        assert(base.objects.dom().contains(pointer));
        rt.heap.lemma_view();
        let size = base.prototype_of(pointer).size as int;
        assert((-size) * count >= count) by (nonlinear_arith)
            requires
                size < 0,
                count >= 0,
        ;
    }
    let words: usize = if count == 0 {
        0
    } else {
        1 + (count - 1) / 8
    };
    let mut j: usize = 0;
    proof {
        assert(stored(base.objects[pointer], text, 0) =~= base.objects[pointer]);
        assert(base.objects.insert(pointer, base.objects[pointer]) =~= base.objects);
    }
    while j < words
        invariant
            j <= words,
            words == units_for(count as int),
            count == text.len(),
            count <= line@.len(),
            line@.take(count as int) == text,
            base.wf(),
            base.objects.dom().contains(pointer),
            base.prototype_of(pointer).size < 0,
            ARRAY_HEADER_WORDS + words <= base.objects[pointer].len() <= usize::MAX,
            rt.store_wf(),
            rt@ == (State {
                objects: base.objects.insert(
                    pointer,
                    stored(base.objects[pointer], text, j as int),
                ),
                ..base
            }),
        decreases words - j,
    {
        let word = pack_word(line, count, j);
        rt.heap.store(pointer, ARRAY_HEADER_WORDS + j, word);
        j += 1;
        proof {
            let goal = stored(base.objects[pointer], text, j as int);
            assert(rt@.objects[pointer] =~= goal);
            assert(rt@.objects =~= base.objects.insert(pointer, goal));
        }
    }
    proof {
        let goal = with_bytes(base, pointer, text);
        lemma_payload_change_wf(base, pointer, goal.objects[pointer]);
        assert(array_bytes(rt@, pointer) =~= text) by {
            assert forall|i: int| 0 <= i < text.len() implies array_bytes(rt@, pointer)[i]
                == text[i] by {
                lemma_byte_of_packed(text, i / 8, i % 8);
            }
        }
    }
    pointer
}

} // verus!
