use wasm_type_gen::annotate::LibraryObj;
use wasm_type_gen::bridge::{entry_result, guest_span, input_size, input_target, BridgeError};
use wasm_type_gen::samples::{wasm_entrypoint, wasm_main, MyStruct, Something, Thing};

#[test]
fn thing_round_trip() {
    let t = Thing { s: "hello".to_string(), q: 101, opt: Some(2) };
    let data = t.to_binary_slice();
    let back = Thing::from_binary_slice(data).expect("decodes");
    assert_eq!(back.s, "hello");
    assert_eq!(back.q, 101);
    assert_eq!(back.opt, Some(2));
}

#[test]
fn thing_absent_field_bytes() {
    let t = Thing { s: String::new(), q: 0, opt: None };
    let data = t.to_binary_slice();
    assert_eq!(data.len(), 20);
    assert_eq!(&data[0..4], &[0, 0, 0, 16]);
    assert_eq!(&data[16..20], &[0xff, 0xff, 0xff, 0xff]);
    let back = Thing::from_binary_slice(data).expect("decodes");
    assert_eq!(back.opt, None);
    assert!(Thing::from_binary_slice(vec![0, 0, 0, 1]).is_none());
}

#[test]
fn guest_main_rewrites_text() {
    let mut t = Thing { s: "hellofromrusttowasm!".to_string(), q: 101, opt: Some(2) };
    wasm_main(&mut t);
    assert_eq!(t.s, "message from wasm!");
    assert_eq!(t.q, 101);
}

#[test]
fn entrypoint_checks_apples() {
    let mut obj = LibraryObj::new();
    wasm_entrypoint(&mut obj, |m: MyStruct| m);
    assert_eq!(obj.compiler_error_message, "");
    wasm_entrypoint(&mut obj, |_m: MyStruct| MyStruct { apples: 3 });
    assert_eq!(obj.compiler_error_message, "apples must be 2");
    let s = Something { a: 6 };
    assert_eq!(s.a, 6);
}

#[test]
fn memory_exchange_rules() {
    assert!(matches!(input_size(&vec![1, 2, 3]), Ok(3)));
    assert_eq!(guest_span(10, 2, 8), Some((2, 10)));
    assert_eq!(guest_span(10, 3, 8), None);
    assert_eq!(guest_span(10, u32::MAX, 2), None);
    assert_eq!(input_target(3, 100, 10, 3), Some((10, 13)));
    assert_eq!(input_target(3, 100, 10, 4), None);
    assert!(matches!(entry_result(0, vec![7]), Ok(v) if v == vec![7]));
    assert!(matches!(entry_result(1, vec![7]), Err(BridgeError::GuestDecodeFailed(1))));
}
