use wasm_type_gen::bundle::{bundle, TypeDef, TypeRef};
use wasm_type_gen::codec::{decode, encode, encoded_len, same_model, try_encode, PrimKind, Ty, Value};

fn def(name: &str, source: &str, field_types: Vec<TypeRef>) -> TypeDef {
    TypeDef { name: name.to_string(), source: source.to_string(), field_types }
}

fn named(n: &str) -> TypeRef {
    TypeRef::Named(n.to_string())
}

fn count(hay: &str, needle: &str) -> usize {
    hay.match_indices(needle).collect::<Vec<_>>().len()
}

fn prim(k: PrimKind) -> Ty {
    Ty::Prim(k)
}

fn opt(t: Ty) -> Ty {
    Ty::Optional(Box::new(t))
}

fn seq(t: Ty) -> Ty {
    Ty::Sequence(Box::new(t))
}

fn some(v: Value) -> Value {
    Value::Present(Box::new(v))
}

fn text(s: &str) -> Value {
    Value::Text(s.to_string())
}

fn round_trip(ty: &Ty, v: &Value) -> Value {
    let data = encode(v);
    assert!(data.len() > 0);
    decode(ty, &data).expect("Expected deser to work")
}

fn pair_of(k: PrimKind, a: Value, b: Value) {
    let ty = Ty::Record(vec![prim(k), prim(k)]);
    let item = Value::Record(vec![a, b]);
    let item2 = round_trip(&ty, &item);
    assert_eq!(item2, item);
}

#[test]
fn ser_deser_works() {
    let ty = Ty::Record(vec![prim(PrimKind::U32), prim(PrimKind::Text), prim(PrimKind::U32)]);
    let item = Value::Record(vec![Value::U32(23), text("abcd"), Value::U32(42)]);
    let item2 = round_trip(&ty, &item);
    match &item2 {
        Value::Record(fields) => {
            assert_eq!(fields[0], Value::U32(23));
            assert_eq!(fields[1], text("abcd"));
            assert_eq!(fields[2], Value::U32(42));
        }
        _ => panic!("not a record"),
    }
}

#[test]
fn ser_deser_works_other_types() {
    let abc2 = Ty::Record(vec![prim(PrimKind::U32)]);
    let ty = Ty::Record(vec![abc2]);
    let item = Value::Record(vec![Value::Record(vec![Value::U32(1)])]);
    assert_eq!(round_trip(&ty, &item), item);
}

#[test]
fn ser_deser_works_unnamed_struct() {
    let ty = Ty::Record(vec![
        prim(PrimKind::U32),
        seq(opt(seq(prim(PrimKind::U32)))),
        prim(PrimKind::U32),
    ]);
    let list = |xs: &[u32]| Value::List(xs.iter().map(|x| Value::U32(*x)).collect());
    let item = Value::Record(vec![
        Value::U32(0),
        Value::List(vec![
            Value::Absent,
            some(list(&[1, 2, 3])),
            some(list(&[])),
            some(list(&[4, 5, 6])),
            Value::Absent,
            Value::Absent,
            Value::Absent,
        ]),
        Value::U32(2),
    ]);
    assert_eq!(round_trip(&ty, &item), item);
}

#[test]
fn ser_deser_works_options() {
    let abc2 = Ty::Record(vec![opt(prim(PrimKind::U32))]);
    let ty = Ty::Record(vec![prim(PrimKind::U32), opt(prim(PrimKind::U32)), opt(abc2)]);
    let item = Value::Record(vec![
        Value::U32(0),
        Value::Absent,
        some(Value::Record(vec![some(Value::U32(1))])),
    ]);
    assert_eq!(round_trip(&ty, &item), item);
}

fn abc_enum() -> Ty {
    Ty::Variant(vec![
        vec![],
        vec![prim(PrimKind::U32), prim(PrimKind::U32)],
        vec![prim(PrimKind::U32)],
    ])
}

#[test]
fn works_for_enums() {
    let ty = abc_enum();
    let unit = Value::Variant(0, vec![]);
    assert_eq!(round_trip(&ty, &unit), unit);
    let named = Value::Variant(1, vec![Value::U32(2), Value::U32(30)]);
    assert_eq!(round_trip(&ty, &named), named);
    let non_named = Value::Variant(2, vec![Value::U32(100)]);
    assert_eq!(round_trip(&ty, &non_named), non_named);
}

#[test]
fn works_for_option_of_enum() {
    let ty = Ty::Record(vec![opt(abc_enum())]);
    let item = Value::Record(vec![some(Value::Variant(2, vec![Value::U32(1)]))]);
    assert_eq!(round_trip(&ty, &item), item);
}

#[test]
fn works_for_advanced_struct() {
    let abc2 = || Ty::Record(vec![prim(PrimKind::U32)]);
    let abc3 = Ty::Variant(vec![vec![abc2()], vec![]]);
    let ty = Ty::Record(vec![opt(abc2()), abc3]);
    let item = Value::Record(vec![
        some(Value::Record(vec![Value::U32(2)])),
        Value::Variant(0, vec![Value::Record(vec![Value::U32(3)])]),
    ]);
    assert_eq!(round_trip(&ty, &item), item);
}

#[test]
fn works_for_vec() {
    let abc2 = Ty::Variant(vec![vec![prim(PrimKind::U32)], vec![]]);
    let ty = Ty::Record(vec![seq(abc2)]);
    let item = Value::Record(vec![Value::List(vec![
        Value::Variant(0, vec![Value::U32(1)]),
        Value::Variant(1, vec![]),
        Value::Variant(0, vec![Value::U32(2)]),
    ])]);
    assert_eq!(round_trip(&ty, &item), item);
    let abc2 = def("Abc2", "pub enum Abc2 { Child(u32), Nothing, }", vec![TypeRef::Prim(PrimKind::U32)]);
    let abc = def(
        "Abc",
        "pub struct Abc { pub data : Vec < Abc2 >, }",
        vec![TypeRef::Sequence(Box::new(named("Abc2")))],
    );
    let text = bundle(&abc, &vec![abc2]).expect("bundle");
    assert!(text.contains("pub enum Abc2"));
    assert!(text.starts_with("pub struct Abc "));
}

#[test]
fn works_for_i8() {
    pair_of(PrimKind::I8, Value::I8(127), Value::I8(-128));
}

#[test]
fn works_for_u8() {
    pair_of(PrimKind::U8, Value::U8(0), Value::U8(255));
}

#[test]
fn works_for_i16() {
    pair_of(PrimKind::I16, Value::I16(i16::MAX), Value::I16(i16::MIN));
}

#[test]
fn works_for_u16() {
    pair_of(PrimKind::U16, Value::U16(u16::MAX), Value::U16(u16::MIN));
}

#[test]
fn works_for_i32() {
    pair_of(PrimKind::I32, Value::I32(i32::MAX), Value::I32(i32::MIN));
}

#[test]
fn works_for_i64() {
    pair_of(PrimKind::I64, Value::I64(i64::MAX), Value::I64(i64::MIN));
}

#[test]
fn works_for_u64() {
    pair_of(PrimKind::U64, Value::U64(u64::MAX), Value::U64(u64::MIN));
}

#[test]
fn works_for_i128() {
    pair_of(PrimKind::I128, Value::I128(i128::MAX), Value::I128(i128::MIN));
}

#[test]
fn works_for_u128() {
    pair_of(PrimKind::U128, Value::U128(u128::MAX), Value::U128(u128::MIN));
}

#[test]
fn works_for_isize() {
    pair_of(PrimKind::Isize, Value::Isize(isize::MAX), Value::Isize(isize::MIN));
}

#[test]
fn works_for_usize() {
    pair_of(PrimKind::Usize, Value::Usize(usize::MAX), Value::Usize(usize::MIN));
}

#[test]
fn works_for_bool() {
    pair_of(PrimKind::Bool, Value::Bool(false), Value::Bool(true));
}

#[test]
fn works_for_char() {
    pair_of(PrimKind::Char, Value::Char('\u{1F63B}'), Value::Char('a'));
}

#[test]
fn works_for_array() {
    let something = || Ty::Record(vec![prim(PrimKind::U32)]);
    let ty = Ty::Record(vec![
        Ty::FixedArray(Box::new(prim(PrimKind::U8)), 4),
        Ty::FixedArray(Box::new(something()), 3),
    ]);
    let item = Value::Record(vec![
        Value::List(vec![Value::U8(1), Value::U8(2), Value::U8(3), Value::U8(4)]),
        Value::List(vec![
            Value::Record(vec![Value::U32(1)]),
            Value::Record(vec![Value::U32(2)]),
            Value::Record(vec![Value::U32(3)]),
        ]),
    ]);
    assert_eq!(round_trip(&ty, &item), item);
    let something = def("Something", "pub struct Something { pub a : u32, }", vec![TypeRef::Prim(PrimKind::U32)]);
    let abc = def(
        "Abc",
        "pub struct Abc { pub d1 : [u8; 4], pub d2 : [Something; 3], }",
        vec![
            TypeRef::FixedArray(Box::new(TypeRef::Prim(PrimKind::U8)), 4),
            TypeRef::FixedArray(Box::new(named("Something")), 3),
        ],
    );
    let text = bundle(&abc, &vec![something]).expect("bundle");
    assert!(text.contains("pub struct Something"));
}

#[test]
fn works_for_results() {
    let something = || Ty::Record(vec![prim(PrimKind::U32)]);
    let other = || Ty::Record(vec![prim(PrimKind::U32)]);
    let ty = Ty::Record(vec![
        Ty::Either(Box::new(something()), Box::new(other())),
        Ty::Either(Box::new(other()), Box::new(something())),
    ]);
    let item = Value::Record(vec![
        Value::EitherOk(Box::new(Value::Record(vec![Value::U32(100)]))),
        Value::EitherOk(Box::new(Value::Record(vec![Value::U32(101)]))),
    ]);
    assert_eq!(round_trip(&ty, &item), item);
    let something = def("Something", "pub struct Something { pub a : u32, }", vec![TypeRef::Prim(PrimKind::U32)]);
    let other = def("Other", "pub struct Other { pub a : u32, }", vec![TypeRef::Prim(PrimKind::U32)]);
    let abc = def(
        "Abc",
        "pub struct Abc { b : Result < Something, Other >, c : Result < Other, Something >, }",
        vec![
            TypeRef::Either(Box::new(named("Something")), Box::new(named("Other"))),
            TypeRef::Either(Box::new(named("Other")), Box::new(named("Something"))),
        ],
    );
    let text = bundle(&abc, &vec![something, other]).expect("bundle");
    assert_eq!(count(&text, "pub struct Other"), 1);
    assert_eq!(count(&text, "pub struct Something"), 1);
}

#[test]
fn works_for_hashmap() {
    let something = || Ty::Record(vec![prim(PrimKind::U32)]);
    let ty = Ty::Record(vec![
        Ty::Mapping(
            Box::new(prim(PrimKind::Text)),
            Box::new(Ty::Either(Box::new(something()), Box::new(something()))),
        ),
        something(),
    ]);
    let item = Value::Record(vec![
        Value::Mapping(vec![
            (text("hello"), Value::EitherOk(Box::new(Value::Record(vec![Value::U32(1)])))),
            (text("world"), Value::EitherErr(Box::new(Value::Record(vec![Value::U32(2)])))),
        ]),
        Value::Record(vec![Value::U32(3)]),
    ]);
    assert_eq!(round_trip(&ty, &item), item);
    let something = def("Something", "pub struct Something { pub a : u32, }", vec![TypeRef::Prim(PrimKind::U32)]);
    let abc = def(
        "Abc",
        "pub struct Abc { pub a : HashMap < String, Result < Something, Something > >, pub b : Something, }",
        vec![
            TypeRef::Mapping(
                Box::new(TypeRef::Prim(PrimKind::Text)),
                Box::new(TypeRef::Either(Box::new(named("Something")), Box::new(named("Something")))),
            ),
            named("Something"),
        ],
    );
    let text = bundle(&abc, &vec![something]).expect("bundle");
    assert_eq!(count(&text, "pub struct Something"), 1);
}

#[test]
fn primitive_wire_bytes() {
    assert_eq!(encode(&Value::U32(0x0102_0304)), vec![0, 0, 0, 4, 1, 2, 3, 4]);
    assert_eq!(encode(&Value::I8(-1)), vec![0, 0, 0, 1, 0xff]);
    assert_eq!(encode(&Value::Usize(5)), vec![0, 0, 0, 8, 0, 0, 0, 0, 0, 0, 0, 5]);
    assert_eq!(encode(&Value::Bool(true)), vec![0, 0, 0, 1, 1]);
    assert_eq!(encode(&Value::Absent), vec![0xff, 0xff, 0xff, 0xff]);
}

#[test]
fn sequence_has_length_and_count() {
    let v = Value::List(vec![Value::U8(7), Value::U8(9)]);
    assert_eq!(
        encode(&v),
        vec![0, 0, 0, 14, 0, 0, 0, 2, 0, 0, 0, 1, 7, 0, 0, 0, 1, 9]
    );
}

#[test]
fn variant_wire_bytes() {
    let v = Value::Variant(2, vec![Value::U8(5)]);
    assert_eq!(encode(&v), vec![0, 0, 0, 9, 0, 0, 0, 2, 0, 0, 0, 1, 5]);
}

#[test]
fn three_levels_deep() {
    let inner = Ty::Record(vec![opt(prim(PrimKind::I64))]);
    let middle = Ty::Record(vec![seq(inner)]);
    let ty = Ty::Record(vec![opt(middle), prim(PrimKind::Text)]);
    let item = Value::Record(vec![
        some(Value::Record(vec![Value::List(vec![
            Value::Record(vec![some(Value::I64(-7))]),
            Value::Record(vec![Value::Absent]),
        ])])),
        text("deep"),
    ]);
    assert_eq!(round_trip(&ty, &item), item);
}

#[test]
fn enum_payload_optional_of_described_type() {
    let point = || Ty::Record(vec![prim(PrimKind::I32), prim(PrimKind::I32)]);
    let ty = Ty::Variant(vec![vec![], vec![opt(point())], vec![prim(PrimKind::U8), opt(point())]]);
    for v in [
        Value::Variant(0, vec![]),
        Value::Variant(1, vec![Value::Absent]),
        Value::Variant(1, vec![some(Value::Record(vec![Value::I32(-1), Value::I32(2)]))]),
        Value::Variant(2, vec![Value::U8(3), some(Value::Record(vec![Value::I32(4), Value::I32(5)]))]),
    ] {
        assert_eq!(round_trip(&ty, &v), v);
    }
}

#[test]
fn malformed_input_is_rejected() {
    let ty = Ty::Record(vec![prim(PrimKind::U32)]);
    assert_eq!(decode(&ty, &vec![0, 0, 0]), None);
    assert_eq!(decode(&ty, &vec![0, 0, 0, 9, 0, 0, 0, 4, 0, 0, 0, 1]), None);
    assert_eq!(decode(&abc_enum(), &vec![0, 0, 0, 4, 0, 0, 0, 7]), None);
    assert_eq!(decode(&prim(PrimKind::Char), &vec![0, 0, 0, 4, 0, 0, 0xd8, 0]), None);
    let arr = Ty::FixedArray(Box::new(prim(PrimKind::U8)), 2);
    assert_eq!(decode(&arr, &vec![0, 0, 0, 9, 0, 0, 0, 1, 0, 0, 0, 1, 1]), None);
}

#[test]
fn native_width_out_of_range_fails() {
    if usize::BITS == 32 {
        let data = vec![0, 0, 0, 8, 0, 0, 0, 1, 0, 0, 0, 0];
        assert_eq!(decode(&prim(PrimKind::Usize), &data), None);
    } else {
        let data = vec![0, 0, 0, 8, 0xff, 0xff, 0xff, 0xff, 0xff, 0xff, 0xff, 0xff];
        assert_eq!(decode(&prim(PrimKind::Usize), &data), Some(Value::Usize(usize::MAX)));
    }
}

#[test]
fn invalid_utf8_text_is_replaced() {
    let data = vec![0, 0, 0, 2, 0x61, 0xff];
    assert_eq!(decode(&prim(PrimKind::Text), &data), Some(text("a\u{FFFD}")));
}

#[test]
fn optional_inside_optional_round_trips_when_present() {
    let ty = opt(opt(prim(PrimKind::U8)));
    let v = some(some(Value::U8(4)));
    assert_eq!(round_trip(&ty, &v), v);
    assert_eq!(round_trip(&ty, &Value::Absent), Value::Absent);
}

#[test]
fn duplicate_mapping_keys_are_rejected() {
    let ty = Ty::Mapping(Box::new(prim(PrimKind::Text)), Box::new(prim(PrimKind::U8)));
    let dup = Value::Mapping(vec![(text("a"), Value::U8(1)), (text("a"), Value::U8(2))]);
    let data = encode(&dup);
    assert_eq!(decode(&ty, &data), None);
    let ok = Value::Mapping(vec![(text("a"), Value::U8(1)), (text("b"), Value::U8(2))]);
    assert_eq!(round_trip(&ty, &ok), ok);
}

#[test]
fn models_compare_across_integer_kinds() {
    assert!(same_model(&Value::I8(5), &Value::U64(5)));
    assert!(!same_model(&Value::I8(-5), &Value::U64(5)));
    assert!(same_model(&Value::I128(i128::MIN), &Value::I128(i128::MIN)));
    assert!(!same_model(&Value::Bool(true), &Value::U8(1)));
    assert!(same_model(
        &Value::List(vec![text("x"), Value::Absent]),
        &Value::List(vec![text("x"), Value::Absent])
    ));
    assert!(!same_model(&Value::List(vec![text("x")]), &Value::Record(vec![text("x")])));
}

#[test]
fn encoded_length_and_total_encoder() {
    let v = Value::Record(vec![text("hi"), Value::List(vec![Value::U16(1)]), Value::Absent]);
    let bytes = encode(&v);
    assert_eq!(encoded_len(&v), bytes.len() as u64);
    assert_eq!(try_encode(&v), Some(bytes));
    assert_eq!(encoded_len(&Value::U128(0)), 20);
}

#[test]
fn child_struct_def_only_once() {
    let something = || Ty::Record(vec![prim(PrimKind::U32)]);
    let ty = Ty::Record(vec![something(), something(), something()]);
    let item = Value::Record(vec![
        Value::Record(vec![Value::U32(0)]),
        Value::Record(vec![Value::U32(1)]),
        Value::Record(vec![Value::U32(2)]),
    ]);
    assert_eq!(round_trip(&ty, &item), item);
    let something = def("Something", "pub struct Something { pub a : u32, }", vec![TypeRef::Prim(PrimKind::U32)]);
    let abc = def(
        "Abc",
        "pub struct Abc { pub a1 : Something, pub a2 : Something, pub a3 : Something, }",
        vec![named("Something"), named("Something"), named("Something")],
    );
    let text = bundle(&abc, &vec![something]).expect("bundle");
    assert_eq!(count(&text, "pub struct Something"), 1);
}
