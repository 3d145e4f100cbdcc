use lisp0::memory::{Memory, MemHandle, Primitive, Value};
use lisp0::globals::option_to_value;
use lisp0::eval::BuiltinReturn;
use lisp0::reader::read_text;

fn new_int(m: &mut Memory, i: i64) -> MemHandle {
    m.value_new(Value::Primitive(Primitive::Int(i))).expect("room")
}

fn int_of(m: &Memory, h: MemHandle) -> i64 {
    match m.value(h) {
        Value::Primitive(Primitive::Int(i)) => i,
        _ => panic!("not an integer"),
    }
}

#[test]
fn new_memory_has_empty_globals() {
    let m = Memory::new();
    let g = m.globals();
    assert!(matches!(m.value(g), Value::Dict));
    assert_eq!(m.dict_len(g), 0);
}

#[test]
fn value_new_reads_back() {
    let mut m = Memory::new();
    let h = new_int(&mut m, 5);
    assert!(matches!(m.value(h), Value::Primitive(Primitive::Int(5))));
    let q = m.value_new(Value::Quote).unwrap();
    assert!(matches!(m.value(q), Value::Quote));
    let inner = m.quote_get(q);
    assert!(matches!(m.value(inner), Value::Primitive(Primitive::Nil)));
    let a = m.value_new(Value::Array).unwrap();
    assert!(matches!(m.value(a), Value::Array));
    assert_eq!(m.array_len(a), 0);
}

#[test]
fn dict_read_after_write() {
    let mut m = Memory::new();
    let d = m.dict_new().unwrap();
    let v = new_int(&mut m, 7);
    m.dict_set(d, Primitive::String("k".to_string()), v);
    assert!(m.dict_has(d, &Primitive::String("k".to_string())));
    assert!(!m.dict_has(d, &Primitive::Int(1)));
    let got = m.dict_get(d, &Primitive::String("k".to_string())).unwrap();
    assert_eq!(int_of(&m, got), 7);
    assert!(m.dict_get(d, &Primitive::Int(1)).is_none());
    let w = new_int(&mut m, 8);
    m.dict_set(d, Primitive::String("k".to_string()), w);
    assert_eq!(m.dict_len(d), 1);
    let got2 = m.dict_get(d, &Primitive::String("k".to_string())).unwrap();
    assert_eq!(int_of(&m, got2), 8);
    m.dict_del(d, &Primitive::String("k".to_string()));
    assert_eq!(m.dict_len(d), 0);
    assert!(m.dict_get(d, &Primitive::String("k".to_string())).is_none());
}

#[test]
fn dict_keys_in_insertion_order() {
    let mut m = Memory::new();
    let d = m.dict_new().unwrap();
    let v = new_int(&mut m, 1);
    m.dict_set(d, Primitive::Int(3), v);
    m.dict_set(d, Primitive::True, v);
    m.dict_set(d, Primitive::Int(3), v);
    let keys = m.dict_keys(d);
    assert_eq!(keys.len(), 2);
    assert!(matches!(keys[0], Primitive::Int(3)));
    assert!(matches!(keys[1], Primitive::True));
}

#[test]
fn dict_set_value_binds_new_object() {
    let mut m = Memory::new();
    let g = m.globals();
    m.dict_set_value(g, Primitive::String("x".to_string()), Value::Primitive(Primitive::Int(9))).unwrap();
    let h = m.dict_get(g, &Primitive::String("x".to_string())).unwrap();
    assert_eq!(int_of(&m, h), 9);
}

#[test]
fn arrays_push_set_truncate() {
    let mut m = Memory::new();
    let a = new_int(&mut m, 1);
    let b = new_int(&mut m, 2);
    let arr = m.array_from_handles(&[a, b]).unwrap();
    assert_eq!(m.array_len(arr), 2);
    let c = new_int(&mut m, 3);
    m.array_push(arr, c);
    assert_eq!(m.array_len(arr), 3);
    let e2 = m.array_get(arr, 2).unwrap();
    assert_eq!(int_of(&m, e2), 3);
    let d = new_int(&mut m, 4);
    m.array_set(arr, 0, d);
    let e0 = m.array_get(arr, 0).unwrap();
    assert_eq!(int_of(&m, e0), 4);
    assert!(m.array_get(arr, 3).is_none());
    m.array_truncate(arr, 1);
    assert_eq!(m.array_len(arr), 1);
    m.array_truncate(arr, 5);
    assert_eq!(m.array_len(arr), 1);
    let hs = m.array_as_handles(arr);
    assert_eq!(hs.len(), 1);
    assert_eq!(int_of(&m, hs[0]), 4);
}

#[test]
fn quotes_box_a_value() {
    let mut m = Memory::new();
    let a = new_int(&mut m, 1);
    let q = m.quote_new(a).unwrap();
    let inner = m.quote_get(q);
    assert_eq!(int_of(&m, inner), 1);
    let b = new_int(&mut m, 2);
    m.quote_set(q, b);
    let inner2 = m.quote_get(q);
    assert_eq!(int_of(&m, inner2), 2);
}

#[test]
fn clones_are_shallow_copies() {
    let mut m = Memory::new();
    let a = new_int(&mut m, 1);
    let arr = m.array_from_handles(&[a]).unwrap();
    let copy = m.array_clone(arr).unwrap();
    let b = new_int(&mut m, 2);
    m.array_push(copy, b);
    assert_eq!(m.array_len(arr), 1);
    assert_eq!(m.array_len(copy), 2);
    let d = m.dict_new().unwrap();
    m.dict_set(d, Primitive::Nil, a);
    let d2 = m.dict_clone(d).unwrap();
    m.dict_del(d2, &Primitive::Nil);
    assert_eq!(m.dict_len(d), 1);
    assert_eq!(m.dict_len(d2), 0);
}

#[test]
fn collection_keeps_reachable_values() {
    // A heap of four cells collects on nearly every allocation.
    let mut m = Memory::new_sized(4);
    let arr = m.array_new().unwrap();
    for i in 0..2000 {
        let h = new_int(&mut m, i);
        m.array_push(arr, h);
        m.handle_release(h);
        if i % 3 == 0 {
            // Garbage: made and dropped at once.
            let t = new_int(&mut m, -1);
            m.handle_release(t);
        }
    }
    assert_eq!(m.array_len(arr), 2000);
    for i in [0usize, 1, 999, 1999] {
        let e = m.array_get(arr, i).unwrap();
        assert_eq!(int_of(&m, e), i as i64);
        m.handle_release(e);
    }
}

#[test]
fn size_limit_reports_full_memory() {
    let mut m = Memory::new_sized(4);
    m.set_gc_size_limit(64);
    let arr = m.array_new().unwrap();
    let mut failed = false;
    for i in 0..1000 {
        match m.value_new(Value::Primitive(Primitive::Int(i))) {
            Ok(h) => m.array_push(arr, h),
            Err(_) => {
                failed = true;
                break;
            }
        }
    }
    assert!(failed);
}

#[test]
fn construct_builds_program_arrays() {
    let out = read_text("print 1 \"a\"\nx", "t".to_string(), false).unwrap();
    let mut m = Memory::new();
    let root = m.construct(out.source.content).unwrap();
    assert!(matches!(m.value(root), Value::Array));
    assert_eq!(m.array_len(root), 2);
    let line = m.array_get(root, 0).unwrap();
    assert_eq!(m.array_len(line), 3);
    let pos = m.array_get_position(line);
    assert_eq!((pos.source, pos.line, pos.column), (2, 1, 1));
    let w0 = m.array_get(line, 0).unwrap();
    assert!(matches!(m.value(w0), Value::Primitive(Primitive::String(ref s)) if s == "print"));
    let w2 = m.array_get(line, 2).unwrap();
    assert!(matches!(m.value(w2), Value::Quote));
    let inner = m.quote_get(w2);
    assert!(matches!(m.value(inner), Value::Primitive(Primitive::String(ref s)) if s == "a"));
    let lone = m.array_get(root, 1).unwrap();
    assert!(matches!(m.value(lone), Value::Primitive(Primitive::String(ref s)) if s == "x"));
    let rp = m.array_get_position(root);
    assert_eq!((rp.source, rp.line, rp.column), (1, 0, 0));
}

#[test]
fn heap_without_room_for_its_live_cells_is_full() {
    // The globals fill a one-cell heap, and the first collection does not grow it.
    let mut m = Memory::new_sized(1);
    assert!(m.array_new().is_err());
}

#[test]
fn released_handles_are_reused() {
    let mut m = Memory::new();
    let a = new_int(&mut m, 1);
    let idx = a.idx;
    m.handle_release(a);
    let b = new_int(&mut m, 2);
    assert_eq!(b.idx, idx);
    assert_eq!(int_of(&m, b), 2);
}

#[test]
fn set_value_is_seen_through_every_handle() {
    let mut m = Memory::new();
    let h = new_int(&mut m, 1);
    let h2 = m.handle_copy(h);
    assert!(m.same_object(h, h2));
    m.set_value(h, Value::Primitive(Primitive::Int(9))).unwrap();
    assert_eq!(int_of(&m, h2), 9);
    let other = new_int(&mut m, 1);
    assert!(!m.same_object(h, other));
    assert_eq!(int_of(&m, other), 1);
}

#[test]
fn array_set_and_push_value() {
    let mut m = Memory::new();
    let a = m.array_new().unwrap();
    m.array_push_value(a, 0, Value::Primitive(Primitive::Int(3))).unwrap();
    m.array_push_value(a, 7, Value::Primitive(Primitive::Int(4))).unwrap();
    assert_eq!(m.array_len(a), 2);
    m.array_set_value(a, 0, Value::Primitive(Primitive::Int(5))).unwrap();
    let e0 = m.array_get(a, 0).unwrap();
    let e1 = m.array_get(a, 1).unwrap();
    assert_eq!(int_of(&m, e0), 5);
    assert_eq!(int_of(&m, e1), 4);
}

#[test]
fn option_to_value_hands_back_what_was_found() {
    let mut m = Memory::new();
    let h = new_int(&mut m, 2);
    assert!(matches!(option_to_value(Some(h)), BuiltinReturn::Value(x) if x == h));
    assert!(matches!(option_to_value(None), BuiltinReturn::Empty));
}

#[test]
fn value_new_makes_an_empty_value_of_each_kind() {
    let mut m = Memory::new();
    let d = m.value_new(Value::Dict).unwrap();
    assert!(matches!(m.value(d), Value::Dict));
    assert_eq!(m.dict_len(d), 0);
    let a = m.value_new(Value::Array).unwrap();
    assert!(matches!(m.value(a), Value::Array));
    assert_eq!(m.array_len(a), 0);
}

#[test]
fn released_handle_entries_are_reused_first_released_first() {
    let mut m = Memory::new();
    let a = m.value_new(Value::Primitive(Primitive::Int(1))).unwrap();
    let b = m.value_new(Value::Primitive(Primitive::Int(2))).unwrap();
    let (ia, ib) = (a.idx, b.idx);
    m.handle_release(a);
    m.handle_release(b);
    let c = m.value_new(Value::Primitive(Primitive::Int(3))).unwrap();
    let d = m.value_new(Value::Primitive(Primitive::Int(4))).unwrap();
    assert_eq!(c.idx, ia);
    assert_eq!(d.idx, ib);
}
