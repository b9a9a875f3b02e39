use typepy_stdlib::memory::{ByteRegion, Memory, WordRegion};
use typepy_stdlib::object::{InitParam, Prototype, Type, NULL};
use typepy_stdlib::runtime::allocator::{alloc_obj, init};
use typepy_stdlib::runtime::builtins::{input, len, print, strip_line_end, Failure};
use typepy_stdlib::runtime::Runtime;
use typepy_stdlib::text::format_i32;
use typepy_stdlib::traps::{div_zero, fatal, invalid_arg, none_op, out_of_bound, Trap};

const CODE_BASE: u64 = 0x1000;
const STACK_BASE: u64 = 0x8000;

fn frame() -> u64 {
    STACK_BASE + 8 * 4
}

fn top() -> u64 {
    STACK_BASE + 8
}

/// A machine with one frame and no roots.
fn machine() -> Memory {
    let mut code = vec![0x90, 0x90, 0x90];
    code.extend_from_slice(&0i32.to_le_bytes());
    code.extend_from_slice(&0i32.to_le_bytes());
    code.extend_from_slice(&(-1i32).to_le_bytes());
    let mut stack = vec![0u64; 8];
    stack[0] = CODE_BASE;
    Memory {
        code: ByteRegion { base: CODE_BASE, bytes: code },
        stack: WordRegion { base: STACK_BASE, words: stack },
        globals: WordRegion { base: 0x4000, words: vec![] },
    }
}

struct Kinds {
    plain: u64,
    int: u64,
    boolean: u64,
    string: u64,
    values: u64,
    objects: u64,
}

fn runtime() -> (Runtime, Kinds) {
    let mut rt = Runtime::new();
    let mut register = |size: i32, type_tag: Type, reference_bitmap: Vec<u8>| {
        rt.register_prototype(Prototype { size, type_tag, reference_bitmap })
    };
    let plain = register(8, Type::Other, vec![0]);
    let int = register(4, Type::Int, vec![]);
    let boolean = register(1, Type::Bool, vec![]);
    let string = register(-1, Type::Str, vec![]);
    let values = register(-4, Type::ValueList, vec![]);
    let objects = register(-8, Type::ObjList, vec![]);
    init(
        &mut rt,
        InitParam {
            bottom_frame: frame(),
            global_section: 0x4000,
            global_size: 0,
            global_map: vec![],
            str_prototype: string,
        },
    );
    (rt, Kinds { plain, int, boolean, string, values, objects })
}

#[test]
fn len_of_strings_and_lists() {
    let memory = machine();
    let (mut rt, kinds) = runtime();
    let s = alloc_obj(&mut rt, &memory, kinds.string, 11, frame(), top());
    let v = alloc_obj(&mut rt, &memory, kinds.values, 3, frame(), top());
    let o = alloc_obj(&mut rt, &memory, kinds.objects, 0, frame(), top());
    assert_eq!(len(&rt, s), Ok(11));
    assert_eq!(len(&rt, v), Ok(3));
    assert_eq!(len(&rt, o), Ok(0));
}

#[test]
fn len_of_anything_else_is_an_invalid_argument() {
    let memory = machine();
    let (mut rt, kinds) = runtime();
    let plain = alloc_obj(&mut rt, &memory, kinds.plain, 0, frame(), top());
    let int = alloc_obj(&mut rt, &memory, kinds.int, 0, frame(), top());
    let boolean = alloc_obj(&mut rt, &memory, kinds.boolean, 0, frame(), top());
    assert_eq!(len(&rt, NULL), Err(Trap::InvalidArg));
    assert_eq!(len(&rt, plain), Err(Trap::InvalidArg));
    assert_eq!(len(&rt, int), Err(Trap::InvalidArg));
    assert_eq!(len(&rt, boolean), Err(Trap::InvalidArg));
}

#[test]
fn print_integers() {
    let memory = machine();
    let (mut rt, kinds) = runtime();
    let n = alloc_obj(&mut rt, &memory, kinds.int, 0, frame(), top());
    assert_eq!(print(&rt, n), Ok("0".to_string()));
    rt.write_slot(n, 0, 42);
    assert_eq!(print(&rt, n), Ok("42".to_string()));
    rt.write_slot(n, 0, (-7i32) as u32 as u64);
    assert_eq!(print(&rt, n), Ok("-7".to_string()));
    rt.write_slot(n, 0, i32::MIN as u32 as u64);
    assert_eq!(print(&rt, n), Ok("-2147483648".to_string()));
    rt.write_slot(n, 0, 0xdead_beef_0000_0000 | i32::MAX as u64);
    assert_eq!(print(&rt, n), Ok("2147483647".to_string()));
}

#[test]
fn print_booleans() {
    let memory = machine();
    let (mut rt, kinds) = runtime();
    let b = alloc_obj(&mut rt, &memory, kinds.boolean, 0, frame(), top());
    assert_eq!(print(&rt, b), Ok("False".to_string()));
    rt.write_slot(b, 0, 1);
    assert_eq!(print(&rt, b), Ok("True".to_string()));
    rt.write_slot(b, 0, 0x100);
    assert_eq!(print(&rt, b), Ok("False".to_string()));
}

#[test]
fn print_strings() {
    let memory = machine();
    let (mut rt, _) = runtime();
    let hello = input(&mut rt, &memory, "hello, world\n".as_bytes(), frame(), top());
    assert_eq!(print(&rt, hello), Ok("hello, world".to_string()));
    let accents = input(&mut rt, &memory, "żółw €\r\n".as_bytes(), frame(), top());
    assert_eq!(print(&rt, accents), Ok("żółw €".to_string()));
    let empty = input(&mut rt, &memory, b"", frame(), top());
    assert_eq!(print(&rt, empty), Ok(String::new()));
}

#[test]
fn print_of_a_string_that_is_not_utf8_is_fatal() {
    let memory = machine();
    let (mut rt, _) = runtime();
    let broken = input(&mut rt, &memory, &[b'a', 0xff, b'b'], frame(), top());
    let expected = std::str::from_utf8(&[b'a', 0xff, b'b']).unwrap_err().to_string();
    assert_eq!(print(&rt, broken), Err(Failure::Fatal(expected)));
}

#[test]
fn print_of_anything_else_is_an_invalid_argument() {
    let memory = machine();
    let (mut rt, kinds) = runtime();
    let plain = alloc_obj(&mut rt, &memory, kinds.plain, 0, frame(), top());
    let values = alloc_obj(&mut rt, &memory, kinds.values, 2, frame(), top());
    let objects = alloc_obj(&mut rt, &memory, kinds.objects, 2, frame(), top());
    assert_eq!(print(&rt, NULL), Err(Failure::Trap(Trap::InvalidArg)));
    assert_eq!(print(&rt, plain), Err(Failure::Trap(Trap::InvalidArg)));
    assert_eq!(print(&rt, values), Err(Failure::Trap(Trap::InvalidArg)));
    assert_eq!(print(&rt, objects), Err(Failure::Trap(Trap::InvalidArg)));
}

#[test]
fn input_strips_the_line_end_and_stores_the_bytes() {
    let memory = machine();
    let (mut rt, kinds) = runtime();
    let before = rt.current_space();
    let s = input(&mut rt, &memory, b"0123456789\r\n\n\r", frame(), top());
    assert_ne!(s, NULL);
    let header = rt.array_object(s);
    assert_eq!(header.len, 10);
    assert_eq!(header.object.prototype, kinds.string);
    assert_eq!(header.object.gc_is_marked, 0);
    assert_eq!(len(&rt, s), Ok(10));
    // 32 bytes of header and 10 bytes of text take 6 units
    assert_eq!(rt.current_space(), before + 6);
    assert_eq!(rt.slot_count(s), 2);
    assert_eq!(rt.read_slot(s, 0), u64::from_le_bytes(*b"01234567"));
    assert_eq!(rt.read_slot(s, 1), u64::from_le_bytes([b'8', b'9', 0, 0, 0, 0, 0, 0]));
}

#[test]
fn strip_line_end_takes_only_the_end() {
    assert_eq!(strip_line_end(b""), 0);
    assert_eq!(strip_line_end(b"\n"), 0);
    assert_eq!(strip_line_end(b"\r\n"), 0);
    assert_eq!(strip_line_end(b"abc"), 3);
    assert_eq!(strip_line_end(b"abc\n"), 3);
    assert_eq!(strip_line_end(b"a\nb\r\n"), 3);
    assert_eq!(strip_line_end(b"a \n"), 2);
}

#[test]
fn format_i32_writes_decimal() {
    assert_eq!(format_i32(0), "0");
    assert_eq!(format_i32(7), "7");
    assert_eq!(format_i32(10), "10");
    assert_eq!(format_i32(-1), "-1");
    assert_eq!(format_i32(1_000_000), "1000000");
    assert_eq!(format_i32(i32::MAX), i32::MAX.to_string());
    assert_eq!(format_i32(i32::MIN), i32::MIN.to_string());
    for value in [-12345, -100, -99, 99, 100, 101, 2_000_000_009] {
        assert_eq!(format_i32(value), value.to_string());
    }
}

#[test]
fn traps_have_their_message_and_exit_code() {
    assert_eq!(invalid_arg(), Trap::InvalidArg);
    assert_eq!(invalid_arg().message(), "Invalid argument");
    assert_eq!(invalid_arg().exit_status(), 1);
    assert_eq!(div_zero().message(), "Division by zero");
    assert_eq!(div_zero().exit_status(), 2);
    assert_eq!(out_of_bound().message(), "Index out of bounds");
    assert_eq!(out_of_bound().exit_status(), 3);
    assert_eq!(none_op().message(), "Operation on None");
    assert_eq!(none_op().exit_status(), 4);
}

#[test]
fn fatal_lines() {
    assert_eq!(fatal("disk on fire"), "Fatal error: disk on fire");
    assert_eq!(fatal(""), "Fatal error: ");
}
