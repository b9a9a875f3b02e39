use typepy_stdlib::bitmap::bytes_for;
use typepy_stdlib::memory::{ByteRegion, Memory, WordRegion};
use typepy_stdlib::object::{InitParam, Prototype, Type, NULL};
use typepy_stdlib::runtime::allocator::{alloc_obj, init};
use typepy_stdlib::runtime::sweeper::sweep;
use typepy_stdlib::runtime::tracer::mark_reachable_from;
use typepy_stdlib::runtime::Runtime;

/// A machine without roots; nothing here lets an allocation collect.
fn machine() -> Memory {
    Memory {
        code: ByteRegion { base: 0, bytes: vec![] },
        stack: WordRegion { base: 0, words: vec![] },
        globals: WordRegion { base: 0, words: vec![] },
    }
}

fn pair() -> Prototype {
    Prototype { size: 16, type_tag: Type::Other, reference_bitmap: vec![0b11] }
}

fn marks(rt: &Runtime, objects: &[u64]) -> Vec<u8> {
    objects.iter().map(|r| rt.object(*r).gc_is_marked).collect()
}

#[test]
fn marking_reaches_through_references_only() {
    let memory = machine();
    let mut rt = Runtime::new();
    let p = rt.register_prototype(pair());
    let q = rt.register_prototype(Prototype {
        size: 16,
        type_tag: Type::Other,
        reference_bitmap: vec![0b10],
    });
    let leaf = alloc_obj(&mut rt, &memory, p, 0, 0, 0);
    let hidden = alloc_obj(&mut rt, &memory, p, 0, 0, 0);
    let node = alloc_obj(&mut rt, &memory, q, 0, 0, 0);
    let root = alloc_obj(&mut rt, &memory, p, 0, 0, 0);
    let apart = alloc_obj(&mut rt, &memory, p, 0, 0, 0);
    rt.write_slot(root, 0, node);
    rt.write_slot(root, 1, root);
    // slot 0 of `node` is no reference slot
    rt.write_slot(node, 0, hidden);
    rt.write_slot(node, 1, leaf);
    rt.write_slot(apart, 0, root);
    let all = [leaf, hidden, node, root, apart];
    mark_reachable_from(&mut rt, NULL);
    assert_eq!(marks(&rt, &all), vec![0, 0, 0, 0, 0]);
    mark_reachable_from(&mut rt, root);
    assert_eq!(marks(&rt, &all), vec![1, 0, 1, 1, 0]);
    assert_eq!(rt.read_slot(root, 0), node);
    assert_eq!(rt.object_list(), vec![apart, root, node, hidden, leaf]);
    assert_eq!(rt.current_space(), 25);
    sweep(&mut rt);
    assert_eq!(marks(&rt, &[leaf, node, root]), vec![0, 0, 0]);
    assert_eq!(rt.object_list(), vec![root, node, leaf]);
    assert_eq!(rt.current_space(), 15);
    assert!(!rt.contains(hidden));
    assert!(!rt.contains(apart));
}

#[test]
fn marking_again_changes_nothing() {
    let memory = machine();
    let mut rt = Runtime::new();
    let p = rt.register_prototype(pair());
    let a = alloc_obj(&mut rt, &memory, p, 0, 0, 0);
    let b = alloc_obj(&mut rt, &memory, p, 0, 0, 0);
    let c = alloc_obj(&mut rt, &memory, p, 0, 0, 0);
    rt.write_slot(a, 0, b);
    rt.write_slot(b, 0, a);
    rt.write_slot(b, 1, b);
    let all = [a, b, c];
    mark_reachable_from(&mut rt, a);
    let once = marks(&rt, &all);
    assert_eq!(once, vec![1, 1, 0]);
    mark_reachable_from(&mut rt, a);
    assert_eq!(marks(&rt, &all), once);
    mark_reachable_from(&mut rt, b);
    assert_eq!(marks(&rt, &all), once);
    sweep(&mut rt);
    assert_eq!(rt.object_list(), vec![b, a]);
}

#[test]
fn marking_stops_at_marked_objects() {
    let memory = machine();
    let mut rt = Runtime::new();
    let p = rt.register_prototype(pair());
    let far = alloc_obj(&mut rt, &memory, p, 0, 0, 0);
    let gate = alloc_obj(&mut rt, &memory, p, 0, 0, 0);
    let root = alloc_obj(&mut rt, &memory, p, 0, 0, 0);
    rt.write_slot(root, 0, gate);
    let all = [far, gate, root];
    mark_reachable_from(&mut rt, gate);
    assert_eq!(marks(&rt, &all), vec![0, 1, 0]);
    // `gate` is marked already: what is stored behind it now is not looked at
    // when tracing from `root`
    mark_reachable_from(&mut rt, root);
    assert_eq!(marks(&rt, &all), vec![0, 1, 1]);
    sweep(&mut rt);
    assert_eq!(rt.object_list(), vec![root, gate]);
    assert!(!rt.contains(far));
}

#[test]
fn marking_follows_every_element_of_a_list() {
    let memory = machine();
    let mut rt = Runtime::new();
    let p = rt.register_prototype(pair());
    let q = rt.register_prototype(Prototype {
        size: -8,
        type_tag: Type::ObjList,
        reference_bitmap: vec![],
    });
    let v = rt.register_prototype(Prototype {
        size: -8,
        type_tag: Type::ValueList,
        reference_bitmap: vec![],
    });
    let x = alloc_obj(&mut rt, &memory, p, 0, 0, 0);
    let y = alloc_obj(&mut rt, &memory, p, 0, 0, 0);
    let z = alloc_obj(&mut rt, &memory, p, 0, 0, 0);
    let numbers = alloc_obj(&mut rt, &memory, v, 2, 0, 0);
    let list = alloc_obj(&mut rt, &memory, q, 3, 0, 0);
    rt.write_slot(list, 0, x);
    rt.write_slot(list, 2, y);
    rt.write_slot(x, 1, numbers);
    // a list of values holds no reference, whatever its words look like
    rt.write_slot(numbers, 0, z);
    mark_reachable_from(&mut rt, list);
    assert_eq!(marks(&rt, &[x, y, z, numbers, list]), vec![1, 1, 0, 1, 1]);
    sweep(&mut rt);
    assert_eq!(rt.object_list(), vec![list, numbers, y, x]);
    assert_eq!(rt.read_slot(numbers, 0), z);
}

#[test]
fn prototypes_are_checked_against_the_layout_rules() {
    let ok = |size: i32, type_tag: Type, bitmap: Vec<u8>| {
        Prototype { size, type_tag, reference_bitmap: bitmap }.is_wf()
    };
    assert!(ok(0, Type::Other, vec![]));
    assert!(ok(64, Type::Other, vec![0xff]));
    assert!(!ok(72, Type::Other, vec![0xff]));
    assert!(ok(72, Type::Other, vec![0xff, 0x01]));
    assert!(!ok(-8, Type::Other, vec![0xff]));
    assert!(ok(4, Type::Int, vec![]));
    assert!(!ok(3, Type::Int, vec![]));
    assert!(ok(1, Type::Bool, vec![]));
    assert!(!ok(0, Type::Bool, vec![]));
    assert!(ok(-1, Type::Str, vec![]));
    assert!(!ok(1, Type::Str, vec![]));
    assert!(ok(-4, Type::ValueList, vec![]));
    assert!(!ok(0, Type::ValueList, vec![]));
    assert!(ok(-8, Type::ObjList, vec![]));
    assert!(!ok(-4, Type::ObjList, vec![]));
    assert_eq!(Prototype::attribute_slots(72), 9);
    assert_eq!(Prototype::attribute_slots(7), 0);
    assert_eq!(Prototype::attribute_slots(-8), 0);
    assert_eq!(bytes_for(0), 0);
    assert_eq!(bytes_for(1), 1);
    assert_eq!(bytes_for(8), 1);
    assert_eq!(bytes_for(9), 2);
}

#[test]
fn runtime_reports_its_state() {
    let memory = machine();
    let mut rt = Runtime::new();
    assert!(!rt.is_initialized());
    assert_eq!(rt.init_param(), &None);
    assert_eq!(rt.gc_head(), NULL);
    let descriptor = InitParam {
        bottom_frame: 64,
        global_section: 128,
        global_size: 16,
        global_map: vec![0b10],
        str_prototype: 0,
    };
    init(&mut rt, descriptor.clone());
    assert!(rt.is_initialized());
    assert_eq!(rt.init_param(), &Some(descriptor));
    let p = rt.register_prototype(pair());
    let q = rt.register_prototype(Prototype {
        size: -1,
        type_tag: Type::Str,
        reference_bitmap: vec![],
    });
    assert_eq!(rt.prototype(p), &pair());
    assert_eq!(rt.prototype(q).size, -1);
    let a = alloc_obj(&mut rt, &memory, p, 0, 0, 0);
    let s = alloc_obj(&mut rt, &memory, q, 9, 0, 0);
    assert_eq!(rt.header_words(a), 3);
    assert_eq!(rt.header_words(s), 4);
    assert_eq!(rt.slot_count(a), 2);
    assert_eq!(rt.slot_count(s), 2);
    assert!(rt.has_room(p, 0));
    assert!(rt.has_room(q, 1 << 20));
    assert!(!rt.has_room(q, u64::MAX));
    assert!(!rt.contains(NULL));
    assert!(!rt.contains(a + s + 1));
}

#[test]
fn bytes_behind_the_last_whole_slot_hold_no_reference() {
    let memory = machine();
    let mut rt = Runtime::new();
    // 12 bytes of attributes: one whole slot, and four bytes more
    let p = rt.register_prototype(Prototype {
        size: 12,
        type_tag: Type::Other,
        reference_bitmap: vec![0b11],
    });
    let first = alloc_obj(&mut rt, &memory, p, 0, 0, 0);
    let second = alloc_obj(&mut rt, &memory, p, 0, 0, 0);
    let root = alloc_obj(&mut rt, &memory, p, 0, 0, 0);
    assert_eq!(rt.current_space(), 15);
    assert_eq!(rt.slot_count(root), 2);
    rt.write_slot(root, 0, first);
    rt.write_slot(root, 1, second);
    mark_reachable_from(&mut rt, root);
    assert_eq!(marks(&rt, &[first, second, root]), vec![1, 0, 1]);
    sweep(&mut rt);
    assert_eq!(rt.object_list(), vec![root, first]);
    assert_eq!(rt.current_space(), 10);
}

#[test]
fn reference_slots_are_what_the_prototype_says() {
    let memory = machine();
    let mut rt = Runtime::new();
    let p = rt.register_prototype(Prototype {
        size: 24,
        type_tag: Type::Other,
        reference_bitmap: vec![0b101],
    });
    let q = rt.register_prototype(Prototype {
        size: -8,
        type_tag: Type::ObjList,
        reference_bitmap: vec![],
    });
    let v = rt.register_prototype(Prototype {
        size: -8,
        type_tag: Type::ValueList,
        reference_bitmap: vec![],
    });
    let object = alloc_obj(&mut rt, &memory, p, 0, 0, 0);
    let list = alloc_obj(&mut rt, &memory, q, 2, 0, 0);
    let values = alloc_obj(&mut rt, &memory, v, 2, 0, 0);
    let found = |r: u64| (0..4).map(|i| rt.holds_reference(r, i)).collect::<Vec<bool>>();
    assert_eq!(found(object), vec![true, false, true, false]);
    assert_eq!(found(list), vec![true, true, false, false]);
    assert_eq!(found(values), vec![false, false, false, false]);
}
