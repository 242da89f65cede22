use wasm_type_gen::bundle::{bundle, BundleError, TypeDef, TypeRef};
use wasm_type_gen::codec::PrimKind;

fn def(name: &str, source: &str, field_types: Vec<TypeRef>) -> TypeDef {
    TypeDef { name: name.to_string(), source: source.to_string(), field_types }
}

fn named(n: &str) -> TypeRef {
    TypeRef::Named(n.to_string())
}





#[test]
fn nested_types_are_pulled_in_transitively() {
    let leaf = def("Leaf", "pub struct Leaf { pub x : u8, }", vec![TypeRef::Prim(PrimKind::U8)]);
    let mid = def("Mid", "pub struct Mid { pub l : Leaf, pub again : Option < Leaf >, }", vec![named("Leaf"), TypeRef::Optional(Box::new(named("Leaf")))]);
    let top = def("Top", "pub struct Top { pub m : Mid, pub l : Leaf, }", vec![named("Mid"), named("Leaf")]);
    let text = bundle(&top, &vec![leaf, mid]).expect("bundle");
    assert_eq!(
        text,
        "pub struct Top { pub m : Mid, pub l : Leaf, }\npub struct Mid { pub l : Leaf, pub again : Option < Leaf >, }\npub struct Leaf { pub x : u8, }"
    );
}

#[test]
fn self_reference_is_not_repeated() {
    let node = def("Node", "pub struct Node { pub next : Vec < Node >, }", vec![TypeRef::Sequence(Box::new(named("Node")))]);
    let text = bundle(&node, &vec![]).expect("bundle");
    assert_eq!(text, "pub struct Node { pub next : Vec < Node >, }");
}

#[test]
fn unknown_type_is_an_error() {
    let abc = def("Abc", "pub struct Abc { pub x : Missing, }", vec![named("Missing")]);
    match bundle(&abc, &vec![]) {
        Err(BundleError::UnknownType(n)) => assert_eq!(n, "Missing"),
        Ok(_) => panic!("expected an error"),
    }
}
