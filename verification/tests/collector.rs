use typepy_stdlib::memory::{ByteRegion, Memory, WordRegion};
use typepy_stdlib::object::{InitParam, Object, Prototype, Type, NULL};
use typepy_stdlib::runtime::allocator::{alloc_obj, init};
use typepy_stdlib::runtime::collector::perform_mark_and_sweep_gc;
use typepy_stdlib::runtime::Runtime;

const CODE_BASE: u64 = 0x1000;
const STACK_BASE: u64 = 0x8000;
const GLOBALS_BASE: u64 = 0x4000;

/// Code for one call site that returns to `CODE_BASE`: three bytes, the
/// operand of the jump, and the reference map right behind it.
fn call_site(min: i32, max: i32, bits: &[u8]) -> Vec<u8> {
    let mut bytes = vec![0x90, 0x90, 0x90];
    bytes.extend_from_slice(&0i32.to_le_bytes());
    bytes.extend_from_slice(&min.to_le_bytes());
    bytes.extend_from_slice(&max.to_le_bytes());
    bytes.extend_from_slice(bits);
    bytes
}

/// A machine with one frame, which is the bottom frame. The frame base is
/// at `frame()`, the stack top at `top()`.
fn one_frame(min: i32, max: i32, bits: &[u8], globals: usize) -> Memory {
    let mut stack = vec![0u64; 16];
    stack[4] = CODE_BASE;
    Memory {
        code: ByteRegion { base: CODE_BASE, bytes: call_site(min, max, bits) },
        stack: WordRegion { base: STACK_BASE, words: stack },
        globals: WordRegion { base: GLOBALS_BASE, words: vec![0u64; globals] },
    }
}

fn top() -> u64 {
    STACK_BASE + 8 * 5
}

fn frame() -> u64 {
    STACK_BASE + 8 * 8
}

fn descriptor(global_slots: u64, global_map: Vec<u8>) -> InitParam {
    InitParam {
        bottom_frame: frame(),
        global_section: GLOBALS_BASE,
        global_size: 8 * global_slots,
        global_map,
        str_prototype: 0,
    }
}

fn plain(size: i32, bitmap: Vec<u8>) -> Prototype {
    Prototype { size, type_tag: Type::Other, reference_bitmap: bitmap }
}

#[test]
fn no_reference_allocation() {
    let memory = one_frame(0, -1, &[], 0);
    let mut rt = Runtime::new();
    init(&mut rt, descriptor(0, vec![]));
    let p = rt.register_prototype(plain(16, vec![0]));
    let mut objects = Vec::new();
    for i in 0..100usize {
        assert_eq!(rt.current_space(), 5 * i);
        objects.push(alloc_obj(&mut rt, &memory, p, 0, frame(), top()));
    }
    assert_eq!(rt.current_space(), 500);
    assert_eq!(rt.object_list().len(), 100);
    perform_mark_and_sweep_gc(&mut rt, &memory, frame(), top());
    assert_eq!(rt.current_space(), 0);
    assert_eq!(rt.threshold_space(), 1024);
    assert_eq!(rt.gc_head(), NULL);
    for r in objects {
        assert!(!rt.contains(r));
    }
}

#[test]
fn allocated_object_is_well_formed() {
    let memory = one_frame(0, -1, &[], 0);
    let mut rt = Runtime::new();
    init(&mut rt, descriptor(0, vec![]));
    let p = rt.register_prototype(plain(16, vec![0]));
    let q = rt.register_prototype(Prototype {
        size: -8,
        type_tag: Type::ObjList,
        reference_bitmap: vec![],
    });
    let a = alloc_obj(&mut rt, &memory, p, 9, frame(), top());
    assert_ne!(a, NULL);
    assert_eq!(rt.object(a), Object { prototype: p, gc_is_marked: 0, gc_next: NULL });
    assert_eq!(rt.slot_count(a), 2);
    assert_eq!(rt.read_slot(a, 0), 0);
    assert_eq!(rt.read_slot(a, 1), 0);
    let b = alloc_obj(&mut rt, &memory, q, 3, frame(), top());
    assert_ne!(b, NULL);
    assert_ne!(b, a);
    let header = rt.array_object(b);
    assert_eq!(header.object, Object { prototype: q, gc_is_marked: 0, gc_next: a });
    assert_eq!(header.len, 3);
    assert_eq!(rt.slot_count(b), 3);
    assert_eq!(rt.gc_head(), b);
    assert_eq!(rt.object_list(), vec![b, a]);
    assert_eq!(rt.current_space(), 5 + 7);
}

#[test]
fn simple_chain() {
    let mut memory = one_frame(0, -1, &[], 1);
    let mut rt = Runtime::new();
    init(&mut rt, descriptor(1, vec![0x01]));
    let p = rt.register_prototype(plain(8, vec![0x01]));
    let a = alloc_obj(&mut rt, &memory, p, 0, frame(), top());
    let b = alloc_obj(&mut rt, &memory, p, 0, frame(), top());
    let c = alloc_obj(&mut rt, &memory, p, 0, frame(), top());
    rt.write_slot(a, 0, b);
    rt.write_slot(b, 0, c);
    memory.globals.store(GLOBALS_BASE, a);
    perform_mark_and_sweep_gc(&mut rt, &memory, frame(), top());
    for r in [a, b, c] {
        assert!(rt.contains(r));
        assert_eq!(rt.object(r).gc_is_marked, 0);
    }
    assert_eq!(rt.object_list(), vec![c, b, a]);
    assert_eq!(rt.read_slot(a, 0), b);
    assert_eq!(rt.read_slot(b, 0), c);
    assert_eq!(rt.current_space(), 12);
    memory.globals.store(GLOBALS_BASE, NULL);
    perform_mark_and_sweep_gc(&mut rt, &memory, frame(), top());
    for r in [a, b, c] {
        assert!(!rt.contains(r));
    }
    assert_eq!(rt.current_space(), 0);
    assert_eq!(rt.object_list(), Vec::<u64>::new());
}

#[test]
fn cycle() {
    let mut memory = one_frame(0, -1, &[], 1);
    let mut rt = Runtime::new();
    init(&mut rt, descriptor(1, vec![0x01]));
    let p = rt.register_prototype(plain(8, vec![0x01]));
    let a = alloc_obj(&mut rt, &memory, p, 0, frame(), top());
    let b = alloc_obj(&mut rt, &memory, p, 0, frame(), top());
    let c = alloc_obj(&mut rt, &memory, p, 0, frame(), top());
    rt.write_slot(a, 0, b);
    rt.write_slot(b, 0, c);
    rt.write_slot(c, 0, a);
    memory.globals.store(GLOBALS_BASE, a);
    perform_mark_and_sweep_gc(&mut rt, &memory, frame(), top());
    for r in [a, b, c] {
        assert!(rt.contains(r));
        assert_eq!(rt.object(r).gc_is_marked, 0);
    }
    memory.globals.store(GLOBALS_BASE, NULL);
    perform_mark_and_sweep_gc(&mut rt, &memory, frame(), top());
    for r in [a, b, c] {
        assert!(!rt.contains(r));
    }
    assert_eq!(rt.current_space(), 0);
}

#[test]
fn array_of_references() {
    let mut memory = one_frame(0, -1, &[], 1);
    let mut rt = Runtime::new();
    init(&mut rt, descriptor(1, vec![0x01]));
    let p = rt.register_prototype(plain(8, vec![0x01]));
    let q = rt.register_prototype(Prototype {
        size: -8,
        type_tag: Type::ObjList,
        reference_bitmap: vec![],
    });
    let x = alloc_obj(&mut rt, &memory, p, 0, frame(), top());
    let y = alloc_obj(&mut rt, &memory, p, 0, frame(), top());
    let z = alloc_obj(&mut rt, &memory, p, 0, frame(), top());
    let list = alloc_obj(&mut rt, &memory, q, 3, frame(), top());
    rt.write_slot(list, 0, x);
    rt.write_slot(list, 1, y);
    rt.write_slot(list, 2, z);
    memory.globals.store(GLOBALS_BASE, list);
    perform_mark_and_sweep_gc(&mut rt, &memory, frame(), top());
    for r in [x, y, z, list] {
        assert!(rt.contains(r));
    }
    assert_eq!(rt.current_space(), 3 * 4 + 7);
    rt.write_slot(list, 1, NULL);
    perform_mark_and_sweep_gc(&mut rt, &memory, frame(), top());
    assert!(rt.contains(list));
    assert!(rt.contains(x));
    assert!(!rt.contains(y));
    assert!(rt.contains(z));
    assert_eq!(rt.object_list(), vec![list, z, x]);
    assert_eq!(rt.array_object(list).len, 3);
    assert_eq!(rt.object(z).gc_next, x);
    assert_eq!(rt.current_space(), 2 * 4 + 7);
}

#[test]
fn stack_roots_via_frame_walk() {
    let mut memory = one_frame(2, 3, &[0b11], 0);
    let mut rt = Runtime::new();
    init(&mut rt, descriptor(0, vec![]));
    let p = rt.register_prototype(plain(16, vec![0]));
    let first = alloc_obj(&mut rt, &memory, p, 0, frame(), top());
    let peer = alloc_obj(&mut rt, &memory, p, 0, frame(), top());
    let second = alloc_obj(&mut rt, &memory, p, 0, frame(), top());
    memory.stack.store(frame() + 8, CODE_BASE);
    memory.stack.store(frame() + 16, first);
    memory.stack.store(frame() + 24, second);
    perform_mark_and_sweep_gc(&mut rt, &memory, frame(), top());
    assert!(rt.contains(first));
    assert!(rt.contains(second));
    assert!(!rt.contains(peer));
    assert_eq!(rt.object_list(), vec![second, first]);
    assert_eq!(rt.current_space(), 10);
}

#[test]
fn slots_that_the_map_leaves_out_are_no_roots() {
    let mut memory = one_frame(-2, 1, &[0b1001], 0);
    let mut rt = Runtime::new();
    init(&mut rt, descriptor(0, vec![]));
    let p = rt.register_prototype(plain(0, vec![]));
    let below = alloc_obj(&mut rt, &memory, p, 0, frame(), top());
    let skipped = alloc_obj(&mut rt, &memory, p, 0, frame(), top());
    let above = alloc_obj(&mut rt, &memory, p, 0, frame(), top());
    memory.stack.store(frame() - 16, below);
    memory.stack.store(frame() - 8, skipped);
    memory.stack.store(frame() + 8, above);
    perform_mark_and_sweep_gc(&mut rt, &memory, frame(), top());
    assert!(rt.contains(below));
    assert!(!rt.contains(skipped));
    assert!(rt.contains(above));
    assert_eq!(rt.current_space(), 6);
}

#[test]
fn walk_goes_through_every_frame() {
    // Two call sites. The inner one returns to CODE_BASE and its map lies
    // right behind the jump. The outer one returns to CODE_BASE + 32, and
    // its jump skips one byte more before its map.
    let mut bytes = call_site(2, 2, &[0b1]);
    bytes.resize(32, 0);
    bytes.extend_from_slice(&[0x90, 0x90, 0x90]);
    bytes.extend_from_slice(&1i32.to_le_bytes());
    bytes.push(0);
    bytes.extend_from_slice(&2i32.to_le_bytes());
    bytes.extend_from_slice(&2i32.to_le_bytes());
    bytes.push(0b1);
    let inner_frame = STACK_BASE + 8 * 2;
    let outer_frame = STACK_BASE + 8 * 8;
    let top = STACK_BASE + 8;
    let mut stack = vec![0u64; 16];
    stack[0] = CODE_BASE;
    stack[2] = outer_frame;
    stack[3] = CODE_BASE + 32;
    let mut memory = Memory {
        code: ByteRegion { base: CODE_BASE, bytes },
        stack: WordRegion { base: STACK_BASE, words: stack },
        globals: WordRegion { base: GLOBALS_BASE, words: vec![] },
    };
    let mut rt = Runtime::new();
    init(
        &mut rt,
        InitParam {
            bottom_frame: outer_frame,
            global_section: GLOBALS_BASE,
            global_size: 0,
            global_map: vec![],
            str_prototype: 0,
        },
    );
    let p = rt.register_prototype(plain(8, vec![0x01]));
    let inner = alloc_obj(&mut rt, &memory, p, 0, inner_frame, top);
    let lost = alloc_obj(&mut rt, &memory, p, 0, inner_frame, top);
    let outer = alloc_obj(&mut rt, &memory, p, 0, inner_frame, top);
    let held = alloc_obj(&mut rt, &memory, p, 0, inner_frame, top);
    rt.write_slot(outer, 0, held);
    memory.stack.store(inner_frame + 16, inner);
    memory.stack.store(outer_frame + 16, outer);
    perform_mark_and_sweep_gc(&mut rt, &memory, inner_frame, top);
    assert!(rt.contains(inner));
    assert!(rt.contains(outer));
    assert!(rt.contains(held));
    assert!(!rt.contains(lost));
    assert_eq!(rt.object_list(), vec![held, outer, inner]);
}

#[test]
fn collection_inside_an_allocation_sees_the_stack() {
    let mut memory = one_frame(-1, -1, &[0b1], 0);
    let mut rt = Runtime::new();
    init(&mut rt, descriptor(0, vec![]));
    let p = rt.register_prototype(plain(16, vec![0b01]));
    let kept = alloc_obj(&mut rt, &memory, p, 0, frame(), top());
    let child = alloc_obj(&mut rt, &memory, p, 0, frame(), top());
    rt.write_slot(kept, 0, child);
    memory.stack.store(frame() - 8, kept);
    while rt.current_space() < rt.threshold_space() {
        alloc_obj(&mut rt, &memory, p, 0, frame(), top());
    }
    let fresh = alloc_obj(&mut rt, &memory, p, 0, frame(), top());
    assert_eq!(rt.object_list(), vec![fresh, child, kept]);
    assert_eq!(rt.current_space(), 15);
    assert_eq!(rt.threshold_space(), 1024);
    assert_eq!(rt.read_slot(kept, 0), child);
    assert_eq!(rt.object(fresh).gc_next, child);
}

#[test]
fn threshold_policy() {
    let mut memory = one_frame(0, -1, &[], 160);
    let mut rt = Runtime::new();
    init(&mut rt, descriptor(160, vec![0xff; 20]));
    let p = rt.register_prototype(plain(16, vec![0]));
    assert_eq!(rt.threshold_space(), 1024);
    let mut objects = Vec::new();
    while rt.current_space() < 1024 {
        objects.push(alloc_obj(&mut rt, &memory, p, 0, frame(), top()));
        assert_eq!(rt.threshold_space(), 1024);
    }
    assert_eq!(rt.current_space(), 1025);
    for i in 0..160u64 {
        memory.globals.store(GLOBALS_BASE + 8 * i, objects[i as usize]);
    }
    let fresh = alloc_obj(&mut rt, &memory, p, 0, frame(), top());
    assert_eq!(rt.threshold_space(), 1600);
    assert_eq!(rt.current_space(), 805);
    assert!(rt.contains(fresh));
    assert!(rt.contains(objects[0]));
    assert!(rt.contains(objects[159]));
    assert!(!rt.contains(objects[160]) || objects[160] == fresh);
    assert_eq!(rt.object_list().len(), 161);
}

#[test]
fn threshold_falls_back_to_the_initial_one() {
    let memory = one_frame(0, -1, &[], 0);
    let mut rt = Runtime::new();
    init(&mut rt, descriptor(0, vec![]));
    let p = rt.register_prototype(plain(16, vec![0]));
    while rt.current_space() < 1024 {
        alloc_obj(&mut rt, &memory, p, 0, frame(), top());
    }
    let fresh = alloc_obj(&mut rt, &memory, p, 0, frame(), top());
    assert_eq!(rt.threshold_space(), 1024);
    assert_eq!(rt.current_space(), 5);
    assert_eq!(rt.object_list(), vec![fresh]);
}

#[test]
fn collecting_twice_changes_nothing_more() {
    let mut memory = one_frame(0, -1, &[], 2);
    let mut rt = Runtime::new();
    init(&mut rt, descriptor(2, vec![0b11]));
    let p = rt.register_prototype(plain(16, vec![0b10]));
    let a = alloc_obj(&mut rt, &memory, p, 0, frame(), top());
    let b = alloc_obj(&mut rt, &memory, p, 0, frame(), top());
    let c = alloc_obj(&mut rt, &memory, p, 0, frame(), top());
    // slot 0 of `a` is no reference slot: what it holds keeps nothing alive
    rt.write_slot(a, 0, c);
    rt.write_slot(a, 1, b);
    memory.globals.store(GLOBALS_BASE, a);
    memory.globals.store(GLOBALS_BASE + 8, a);
    perform_mark_and_sweep_gc(&mut rt, &memory, frame(), top());
    let list = rt.object_list();
    let space = rt.current_space();
    assert_eq!(list, vec![b, a]);
    assert_eq!(space, 10);
    perform_mark_and_sweep_gc(&mut rt, &memory, frame(), top());
    assert_eq!(rt.object_list(), list);
    assert_eq!(rt.current_space(), space);
    assert_eq!(rt.read_slot(a, 0), c);
    assert_eq!(rt.read_slot(a, 1), b);
}
