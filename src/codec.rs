//! The binary codec shared by host and guest.
//!
//! A value is described by a [`Ty`] and carried as a [`Value`]. Every
//! primitive is written as a four-byte big-endian width followed by its
//! big-endian bytes; text, records, variants, sequences and mappings carry a
//! four-byte big-endian byte count ahead of their payload, sequences and
//! mappings an element count after it, and an absent optional is the four
//! bytes `FF FF FF FF`.
use vstd::prelude::*;
use vstd::utf8::*;
use crate::wire::{
    be_bytes, be_value, lemma_be_bytes_len, lemma_be_round_trip, lemma_be_value_bound, pow256,
    push_be, read_be,
};

verus! {

/// The primitive kinds a described value may have.
#[derive(Clone, Copy, Debug, PartialEq, Eq, Structural)]
pub enum PrimKind {
    I8,
    I16,
    I32,
    I64,
    I128,
    Isize,
    U8,
    U16,
    U32,
    U64,
    U128,
    Usize,
    Bool,
    Char,
    Text,
}

/// A value type descriptor. Field and variant names never reach the wire,
/// so a record lists only its field types in declaration order, and a
/// variant type lists, for each variant in declaration order, the types of
/// its payload (empty for a variant without payload).
#[derive(Debug, PartialEq)]
pub enum Ty {
    Prim(PrimKind),
    Optional(Box<Ty>),
    Sequence(Box<Ty>),
    FixedArray(Box<Ty>, u32),
    Record(Vec<Ty>),
    Variant(Vec<Vec<Ty>>),
    Either(Box<Ty>, Box<Ty>),
    Mapping(Box<Ty>, Box<Ty>),
}

/// The mathematical content of a [`Value`].
pub enum Model {
    Int(int),
    Bool(bool),
    Char(char),
    Text(Seq<char>),
    Absent,
    Present(Box<Model>),
    List(Seq<Model>),
    Record(Seq<Model>),
    Variant(nat, Seq<Model>),
    EitherOk(Box<Model>),
    EitherErr(Box<Model>),
    Mapping(Seq<(Model, Model)>),
}

/// A described value. Records hold their field values in declaration order,
/// a variant holds its zero-based declaration index and its payload values,
/// and a mapping holds its entries in wire order.
#[derive(Debug, PartialEq)]
pub enum Value {
    I8(i8),
    I16(i16),
    I32(i32),
    I64(i64),
    I128(i128),
    Isize(isize),
    U8(u8),
    U16(u16),
    U32(u32),
    U64(u64),
    U128(u128),
    Usize(usize),
    Bool(bool),
    Char(char),
    Text(String),
    Absent,
    Present(Box<Value>),
    List(Vec<Value>),
    Record(Vec<Value>),
    Variant(u32, Vec<Value>),
    EitherOk(Box<Value>),
    EitherErr(Box<Value>),
    Mapping(Vec<(Value, Value)>),
}

// ---------------------------------------------------------------------------
// Models

pub open spec fn model_of(v: Value) -> Model
    decreases v,
{
    match v {
        Value::I8(x) => Model::Int(x as int),
        Value::I16(x) => Model::Int(x as int),
        Value::I32(x) => Model::Int(x as int),
        Value::I64(x) => Model::Int(x as int),
        Value::I128(x) => Model::Int(x as int),
        Value::Isize(x) => Model::Int(x as int),
        Value::U8(x) => Model::Int(x as int),
        Value::U16(x) => Model::Int(x as int),
        Value::U32(x) => Model::Int(x as int),
        Value::U64(x) => Model::Int(x as int),
        Value::U128(x) => Model::Int(x as int),
        Value::Usize(x) => Model::Int(x as int),
        Value::Bool(b) => Model::Bool(b),
        Value::Char(c) => Model::Char(c),
        Value::Text(s) => Model::Text(s@),
        Value::Absent => Model::Absent,
        Value::Present(b) => Model::Present(Box::new(model_of(*b))),
        Value::List(items) => Model::List(models_of(items@)),
        Value::Record(items) => Model::Record(models_of(items@)),
        Value::Variant(i, items) => Model::Variant(i as nat, models_of(items@)),
        Value::EitherOk(b) => Model::EitherOk(Box::new(model_of(*b))),
        Value::EitherErr(b) => Model::EitherErr(Box::new(model_of(*b))),
        Value::Mapping(es) => Model::Mapping(pair_models_of(es@)),
    }
}

pub open spec fn models_of(items: Seq<Value>) -> Seq<Model>
    decreases items,
{
    if items.len() == 0 {
        Seq::empty()
    } else {
        seq![model_of(items[0])] + models_of(items.drop_first())
    }
}

pub open spec fn pair_models_of(es: Seq<(Value, Value)>) -> Seq<(Model, Model)>
    decreases es,
{
    if es.len() == 0 {
        Seq::empty()
    } else {
        seq![(model_of(es[0].0), model_of(es[0].1))] + pair_models_of(es.drop_first())
    }
}

impl View for Value {
    type V = Model;

    open spec fn view(&self) -> Model {
        model_of(*self)
    }
}

// ---------------------------------------------------------------------------
// Encoding

/// Number of value bytes of a fixed-width primitive on the wire (text has
/// none: it is written as a byte count and its UTF-8 bytes).
pub open spec fn width(k: PrimKind) -> nat {
    match k {
        PrimKind::I8 | PrimKind::U8 | PrimKind::Bool => 1,
        PrimKind::I16 | PrimKind::U16 => 2,
        PrimKind::I32 | PrimKind::U32 | PrimKind::Char => 4,
        PrimKind::I64 | PrimKind::U64 | PrimKind::Isize | PrimKind::Usize => 8,
        PrimKind::I128 | PrimKind::U128 => 16,
        PrimKind::Text => 0,
    }
}

pub open spec fn u32_be(n: nat) -> Seq<u8> {
    be_bytes(n, 4)
}

/// A payload preceded by its own byte count.
pub open spec fn framed(payload: Seq<u8>) -> Seq<u8> {
    u32_be(payload.len()) + payload
}

/// A fixed-width number: its width, then its `w` big-endian bytes.
pub open spec fn number(bits: nat, w: nat) -> Seq<u8> {
    u32_be(w) + be_bytes(bits, w)
}

/// The bytes that stand for an absent optional.
pub open spec fn absent_marker() -> Seq<u8> {
    seq![0xffu8, 0xffu8, 0xffu8, 0xffu8]
}

pub open spec fn enc(v: Value) -> Seq<u8>
    decreases v,
{
    match v {
        Value::I8(x) => number((x as u8) as nat, 1),
        Value::I16(x) => number((x as u16) as nat, 2),
        Value::I32(x) => number((x as u32) as nat, 4),
        Value::I64(x) => number((x as u64) as nat, 8),
        Value::I128(x) => number((x as u128) as nat, 16),
        Value::Isize(x) => number(((x as i64) as u64) as nat, 8),
        Value::U8(x) => number(x as nat, 1),
        Value::U16(x) => number(x as nat, 2),
        Value::U32(x) => number(x as nat, 4),
        Value::U64(x) => number(x as nat, 8),
        Value::U128(x) => number(x as nat, 16),
        Value::Usize(x) => number(x as nat, 8),
        Value::Bool(b) => number(if b { 1 } else { 0 }, 1),
        Value::Char(c) => number((c as u32) as nat, 4),
        Value::Text(s) => framed(encode_utf8(s@)),
        Value::Absent => absent_marker(),
        Value::Present(b) => enc(*b),
        Value::List(items) => framed(u32_be(items@.len()) + enc_all(items@)),
        Value::Record(items) => framed(enc_all(items@)),
        Value::Variant(i, items) => framed(u32_be(i as nat) + enc_all(items@)),
        Value::EitherOk(b) => framed(u32_be(0) + enc(*b)),
        Value::EitherErr(b) => framed(u32_be(1) + enc(*b)),
        Value::Mapping(es) => framed(u32_be(es@.len()) + enc_pairs(es@)),
    }
}

pub open spec fn enc_all(items: Seq<Value>) -> Seq<u8>
    decreases items,
{
    if items.len() == 0 {
        Seq::empty()
    } else {
        enc(items[0]) + enc_all(items.drop_first())
    }
}

pub open spec fn enc_pairs(es: Seq<(Value, Value)>) -> Seq<u8>
    decreases es,
{
    if es.len() == 0 {
        Seq::empty()
    } else {
        enc(es[0].0) + enc(es[0].1) + enc_pairs(es.drop_first())
    }
}

/// A value can be written when its whole encoding stays below `2^32 - 1`
/// bytes; every length prefix inside it then differs from the absent marker.
pub open spec fn encodable(v: Value) -> bool {
    enc(v).len() < 0xffff_ffff
}

// ---------------------------------------------------------------------------
// Conformance of a value to a descriptor

pub open spec fn prim_conforms(v: Value, k: PrimKind) -> bool {
    match (v, k) {
        (Value::I8(_), PrimKind::I8) => true,
        (Value::I16(_), PrimKind::I16) => true,
        (Value::I32(_), PrimKind::I32) => true,
        (Value::I64(_), PrimKind::I64) => true,
        (Value::I128(_), PrimKind::I128) => true,
        (Value::Isize(_), PrimKind::Isize) => true,
        (Value::U8(_), PrimKind::U8) => true,
        (Value::U16(_), PrimKind::U16) => true,
        (Value::U32(_), PrimKind::U32) => true,
        (Value::U64(_), PrimKind::U64) => true,
        (Value::U128(_), PrimKind::U128) => true,
        (Value::Usize(_), PrimKind::Usize) => true,
        (Value::Bool(_), PrimKind::Bool) => true,
        (Value::Char(_), PrimKind::Char) => true,
        (Value::Text(_), PrimKind::Text) => true,
        _ => false,
    }
}

/// `v` is a value of type `ty`. A present optional may not hold an absent
/// one (both would be written as the absent marker), and the keys of a
/// mapping are distinct.
pub open spec fn conforms(v: Value, ty: Ty) -> bool
    decreases v,
{
    match ty {
        Ty::Prim(k) => prim_conforms(v, k),
        Ty::Optional(t) => match v {
            Value::Absent => true,
            Value::Present(b) => !(*b is Absent) && conforms(*b, *t),
            _ => false,
        },
        Ty::Sequence(t) => match v {
            Value::List(items) => all_conform(items@, *t),
            _ => false,
        },
        Ty::FixedArray(t, n) => match v {
            Value::List(items) => items@.len() == n && all_conform(items@, *t),
            _ => false,
        },
        Ty::Record(tys) => match v {
            Value::Record(items) => each_conforms(items@, tys@),
            _ => false,
        },
        Ty::Variant(vs) => match v {
            Value::Variant(i, items) => i < vs@.len() && each_conforms(items@, vs@[i as int]@),
            _ => false,
        },
        Ty::Either(a, b) => match v {
            Value::EitherOk(x) => conforms(*x, *a),
            Value::EitherErr(x) => conforms(*x, *b),
            _ => false,
        },
        Ty::Mapping(k, t) => match v {
            Value::Mapping(es) => pairs_conform(es@, *k, *t) && keys_distinct(
                pair_models_of(es@),
            ),
            _ => false,
        },
    }
}

pub open spec fn all_conform(items: Seq<Value>, t: Ty) -> bool
    decreases items,
{
    items.len() > 0 ==> conforms(items[0], t) && all_conform(items.drop_first(), t)
}

pub open spec fn each_conforms(items: Seq<Value>, tys: Seq<Ty>) -> bool
    decreases items,
{
    items.len() == tys.len() && (items.len() > 0 ==> conforms(items[0], tys[0])
        && each_conforms(items.drop_first(), tys.drop_first()))
}

pub open spec fn pairs_conform(es: Seq<(Value, Value)>, k: Ty, t: Ty) -> bool
    decreases es,
{
    es.len() > 0 ==> conforms(es[0].0, k) && conforms(es[0].1, t) && pairs_conform(
        es.drop_first(),
        k,
        t,
    )
}

pub open spec fn keys_distinct(ms: Seq<(Model, Model)>) -> bool {
    forall|i: int, j: int| 0 <= i < j < ms.len() ==> ms[i].0 != ms[j].0
}

// ---------------------------------------------------------------------------
// Decoding

/// The four-byte big-endian word at `pos`, if `data` holds one there.
pub open spec fn word_at(data: Seq<u8>, pos: int) -> Option<nat> {
    if 0 <= pos && pos + 4 <= data.len() {
        Some(be_value(data.subrange(pos, pos + 4)))
    } else {
        None
    }
}

/// Text read back from its bytes: the decoded characters of valid UTF-8,
/// otherwise what a lossy conversion yields.
pub open spec fn text_of(b: Seq<u8>) -> Seq<char> {
    if valid_utf8(b) {
        decode_utf8(b)
    } else {
        lossy_utf8(b)
    }
}

/// The model of a fixed-width primitive whose wire bytes denote `n`;
/// `None` for a native-width integer that does not fit this machine and
/// for a number that is no Unicode scalar value.
pub open spec fn prim_model(k: PrimKind, n: nat) -> Option<Model> {
    match k {
        PrimKind::I8 => Some(Model::Int(((n as u8) as i8) as int)),
        PrimKind::I16 => Some(Model::Int(((n as u16) as i16) as int)),
        PrimKind::I32 => Some(Model::Int(((n as u32) as i32) as int)),
        PrimKind::I64 => Some(Model::Int(((n as u64) as i64) as int)),
        PrimKind::I128 => Some(Model::Int(((n as u128) as i128) as int)),
        PrimKind::Isize => {
            let x = (n as u64) as i64;
            if isize::MIN <= x <= isize::MAX {
                Some(Model::Int(x as int))
            } else {
                None
            }
        },
        PrimKind::Usize => if n <= usize::MAX {
            Some(Model::Int(n as int))
        } else {
            None
        },
        PrimKind::Bool => Some(Model::Bool(n != 0)),
        PrimKind::Char => if is_scalar(n as u32) {
            Some(Model::Char((n as u32) as char))
        } else {
            None
        },
        PrimKind::Text => None,
        _ => Some(Model::Int(n as int)),
    }
}

/// Decodes a value of type `ty` from `data` at `pos`: the model and the
/// position after it, or `None` when the bytes are no such value.
pub open spec fn dec(ty: Ty, data: Seq<u8>, pos: int) -> Option<(Model, int)>
    decreases ty, 2int, 0int,
{
    match ty {
        Ty::Prim(PrimKind::Text) => match word_at(data, pos) {
            Some(len) => if pos + 4 + len <= data.len() {
                Some(
                    (
                        Model::Text(text_of(data.subrange(pos + 4, pos + 4 + len))),
                        pos + 4 + len,
                    ),
                )
            } else {
                None
            },
            None => None,
        },
        Ty::Prim(k) => {
            let w = width(k);
            if 0 <= pos && pos + 4 + w <= data.len() {
                match prim_model(k, be_value(data.subrange(pos + 4, pos + 4 + w))) {
                    Some(m) => Some((m, pos + 4 + w)),
                    None => None,
                }
            } else {
                None
            }
        },
        Ty::Optional(t) => match word_at(data, pos) {
            Some(w) => if w == 0xffff_ffff {
                Some((Model::Absent, pos + 4))
            } else {
                match dec(*t, data, pos) {
                    Some((m, p)) => Some((Model::Present(Box::new(m)), p)),
                    None => None,
                }
            },
            None => None,
        },
        Ty::Sequence(t) => match (word_at(data, pos), word_at(data, pos + 4)) {
            (Some(len), Some(n)) => match dec_items(ty, n, data, pos + 8) {
                Some((ms, q)) => if q == pos + 4 + len {
                    Some((Model::List(ms), q))
                } else {
                    None
                },
                None => None,
            },
            _ => None,
        },
        Ty::FixedArray(t, count) => match (word_at(data, pos), word_at(data, pos + 4)) {
            (Some(len), Some(n)) => if n != count {
                None
            } else {
                match dec_items(ty, n, data, pos + 8) {
                    Some((ms, q)) => if q == pos + 4 + len {
                        Some((Model::List(ms), q))
                    } else {
                        None
                    },
                    None => None,
                }
            },
            _ => None,
        },
        Ty::Record(tys) => match word_at(data, pos) {
            Some(len) => match dec_seq(tys@, data, pos + 4) {
                Some((ms, q)) => if q == pos + 4 + len {
                    Some((Model::Record(ms), q))
                } else {
                    None
                },
                None => None,
            },
            None => None,
        },
        Ty::Variant(vs) => match (word_at(data, pos), word_at(data, pos + 4)) {
            (Some(len), Some(i)) => if i < vs@.len() {
                match dec_seq(vs@[i as int]@, data, pos + 8) {
                    Some((ms, q)) => if q == pos + 4 + len {
                        Some((Model::Variant(i, ms), q))
                    } else {
                        None
                    },
                    None => None,
                }
            } else {
                None
            },
            _ => None,
        },
        Ty::Either(a, b) => match (word_at(data, pos), word_at(data, pos + 4)) {
            (Some(len), Some(i)) => if i == 0 {
                match dec(*a, data, pos + 8) {
                    Some((m, q)) => if q == pos + 4 + len {
                        Some((Model::EitherOk(Box::new(m)), q))
                    } else {
                        None
                    },
                    None => None,
                }
            } else if i == 1 {
                match dec(*b, data, pos + 8) {
                    Some((m, q)) => if q == pos + 4 + len {
                        Some((Model::EitherErr(Box::new(m)), q))
                    } else {
                        None
                    },
                    None => None,
                }
            } else {
                None
            },
            _ => None,
        },
        Ty::Mapping(k, t) => match (word_at(data, pos), word_at(data, pos + 4)) {
            (Some(len), Some(n)) => match dec_pairs(ty, n, data, pos + 8) {
                Some((ms, q)) => if q == pos + 4 + len && keys_distinct(ms) {
                    Some((Model::Mapping(ms), q))
                } else {
                    None
                },
                None => None,
            },
            _ => None,
        },
    }
}

/// Decodes `n` elements of the sequence or array type `cty`.
pub open spec fn dec_items(cty: Ty, n: nat, data: Seq<u8>, pos: int) -> Option<(Seq<Model>, int)>
    decreases cty, 1int, n,
{
    if n == 0 {
        Some((Seq::empty(), pos))
    } else {
        let first = match cty {
            Ty::Sequence(t) => dec(*t, data, pos),
            Ty::FixedArray(t, _) => dec(*t, data, pos),
            _ => None,
        };
        match first {
            Some((m, p)) => match dec_items(cty, (n - 1) as nat, data, p) {
                Some((ms, q)) => Some((seq![m] + ms, q)),
                None => None,
            },
            None => None,
        }
    }
}

/// Decodes `n` entries of the mapping type `mty`.
pub open spec fn dec_pairs(mty: Ty, n: nat, data: Seq<u8>, pos: int) -> Option<(Seq<(Model, Model)>, int)>
    decreases mty, 1int, n,
{
    if n == 0 {
        Some((Seq::empty(), pos))
    } else {
        match mty {
            Ty::Mapping(k, t) => match dec(*k, data, pos) {
                Some((km, p1)) => match dec(*t, data, p1) {
                    Some((vm, p2)) => match dec_pairs(mty, (n - 1) as nat, data, p2) {
                        Some((ms, q)) => Some((seq![(km, vm)] + ms, q)),
                        None => None,
                    },
                    None => None,
                },
                None => None,
            },
            _ => None,
        }
    }
}

/// Decodes one value of each type of `tys`, in order.
pub open spec fn dec_seq(tys: Seq<Ty>, data: Seq<u8>, pos: int) -> Option<(Seq<Model>, int)>
    decreases tys, 0int, 0int,
{
    if tys.len() == 0 {
        Some((Seq::empty(), pos))
    } else {
        match dec(tys[0], data, pos) {
            Some((m, p)) => match dec_seq(tys.drop_first(), data, p) {
                Some((ms, q)) => Some((seq![m] + ms, q)),
                None => None,
            },
            None => None,
        }
    }
}

// ---------------------------------------------------------------------------
// Round trip

proof fn lemma_pow256_values()
    ensures
        pow256(1) == 0x100,
        pow256(2) == 0x1_0000,
        pow256(4) == 0x1_0000_0000,
        pow256(8) == 0x1_0000_0000_0000_0000,
        pow256(16) == 0x1_0000_0000_0000_0000_0000_0000_0000_0000,
{
    reveal_with_fuel(pow256, 17);
}

proof fn lemma_u32_be(n: nat)
    requires
        n < 0x1_0000_0000,
    ensures
        u32_be(n).len() == 4,
        be_value(u32_be(n)) == n,
{
    lemma_pow256_values();
    lemma_be_bytes_len(n, 4);
    lemma_be_round_trip(n, 4);
}

proof fn lemma_number(bits: nat, w: nat)
    requires
        w == 1 || w == 2 || w == 4 || w == 8 || w == 16,
        bits < pow256(w),
    ensures
        number(bits, w).len() == 4 + w,
        number(bits, w).subrange(0, 4) == u32_be(w),
        be_value(number(bits, w).subrange(0, 4)) == w,
        number(bits, w).subrange(4, 4 + w as int) == be_bytes(bits, w),
        be_value(be_bytes(bits, w)) == bits,
{
    lemma_u32_be(w);
    lemma_be_bytes_len(bits, w);
    lemma_be_round_trip(bits, w);
    assert(number(bits, w).subrange(0, 4) =~= u32_be(w));
    assert(number(bits, w).subrange(4, 4 + w as int) =~= be_bytes(bits, w));
}

/// Splits a window of `data` that holds `a + b` into its two parts.
proof fn lemma_split(data: Seq<u8>, p: int, a: Seq<u8>, b: Seq<u8>)
    requires
        0 <= p,
        p + a.len() + b.len() <= data.len(),
        data.subrange(p, p + a.len() + b.len()) == a + b,
    ensures
        data.subrange(p, p + a.len()) == a,
        data.subrange(p + a.len(), p + a.len() + b.len()) == b,
{
    assert forall|i: int| 0 <= i < a.len() implies data.subrange(p, p + a.len())[i] == a[i] by {
        assert(data[p + i] == data.subrange(p, p + a.len() + b.len())[i]);
    }
    assert forall|i: int| 0 <= i < b.len() implies data.subrange(
        p + a.len(),
        p + a.len() + b.len(),
    )[i] == b[i] by {
        assert(data[p + a.len() + i] == data.subrange(p, p + a.len() + b.len())[a.len() + i]);
    }
    assert(data.subrange(p, p + a.len()) =~= a);
    assert(data.subrange(p + a.len(), p + a.len() + b.len()) =~= b);
}

/// Reads a four-byte word written at the front of a window.
proof fn lemma_word(data: Seq<u8>, p: int, n: nat, rest: Seq<u8>)
    requires
        n < 0x1_0000_0000,
        0 <= p,
        p + 4 + rest.len() <= data.len(),
        data.subrange(p, p + 4 + rest.len()) == u32_be(n) + rest,
    ensures
        word_at(data, p) == Some(n),
        data.subrange(p + 4, p + 4 + rest.len()) == rest,
{
    lemma_u32_be(n);
    lemma_split(data, p, u32_be(n), rest);
}

pub proof fn lemma_enc_len(v: Value)
    ensures
        enc(v).len() >= 4,
    decreases v,
{
    lemma_u32_be(0);
    lemma_pow256_values();
    match v {
        Value::Present(b) => lemma_enc_len(*b),
        Value::Text(s) => {},
        Value::Absent => {},
        Value::List(items) => {},
        Value::Record(items) => {},
        Value::Variant(i, items) => {},
        Value::EitherOk(b) => {},
        Value::EitherErr(b) => {},
        Value::Mapping(es) => {},
        Value::Bool(b) => lemma_be_bytes_len(if b { 1 } else { 0 }, 1),
        _ => {},
    }
    match v {
        Value::I8(x) => lemma_be_bytes_len((x as u8) as nat, 1),
        Value::U8(x) => lemma_be_bytes_len(x as nat, 1),
        _ => {},
    }
}

pub proof fn lemma_enc_all_len(items: Seq<Value>)
    ensures
        enc_all(items).len() >= 4 * items.len(),
    decreases items,
{
    if items.len() > 0 {
        lemma_enc_len(items[0]);
        lemma_enc_all_len(items.drop_first());
    }
}

pub proof fn lemma_enc_pairs_len(es: Seq<(Value, Value)>)
    ensures
        enc_pairs(es).len() >= 8 * es.len(),
    decreases es,
{
    if es.len() > 0 {
        lemma_enc_len(es[0].0);
        lemma_enc_len(es[0].1);
        lemma_enc_pairs_len(es.drop_first());
    }
}

/// The first word of a value other than the absent marker is never
/// `FF FF FF FF`.
proof fn lemma_head(v: Value, ty: Ty)
    requires
        conforms(v, ty),
        !(v is Absent),
        encodable(v),
    ensures
        enc(v).len() >= 4,
        be_value(enc(v).subrange(0, 4)) < 0xffff_ffff,
    decreases v,
{
    lemma_enc_len(v);
    lemma_pow256_values();
    match v {
        Value::Present(b) => {
            match ty {
                Ty::Optional(t) => lemma_head(*b, *t),
                _ => {},
            }
        },
        Value::Text(s) => lemma_framed_head(encode_utf8(s@)),
        Value::List(items) => lemma_framed_head(u32_be(items@.len()) + enc_all(items@)),
        Value::Record(items) => lemma_framed_head(enc_all(items@)),
        Value::Variant(i, items) => lemma_framed_head(u32_be(i as nat) + enc_all(items@)),
        Value::EitherOk(b) => lemma_framed_head(u32_be(0) + enc(*b)),
        Value::EitherErr(b) => lemma_framed_head(u32_be(1) + enc(*b)),
        Value::Mapping(es) => lemma_framed_head(u32_be(es@.len()) + enc_pairs(es@)),
        Value::I8(x) => lemma_number((x as u8) as nat, 1),
        Value::I16(x) => lemma_number((x as u16) as nat, 2),
        Value::I32(x) => lemma_number((x as u32) as nat, 4),
        Value::I64(x) => lemma_number((x as u64) as nat, 8),
        Value::I128(x) => lemma_number((x as u128) as nat, 16),
        Value::Isize(x) => lemma_number(((x as i64) as u64) as nat, 8),
        Value::U8(x) => lemma_number(x as nat, 1),
        Value::U16(x) => lemma_number(x as nat, 2),
        Value::U32(x) => lemma_number(x as nat, 4),
        Value::U64(x) => lemma_number(x as nat, 8),
        Value::U128(x) => lemma_number(x as nat, 16),
        Value::Usize(x) => lemma_number(x as nat, 8),
        Value::Bool(b) => lemma_number(if b { 1 } else { 0 }, 1),
        Value::Char(c) => lemma_number((c as u32) as nat, 4),
        Value::Absent => {},
    }
}

proof fn lemma_framed_head(payload: Seq<u8>)
    requires
        framed(payload).len() < 0xffff_ffff,
    ensures
        framed(payload).subrange(0, 4) == u32_be(payload.len()),
        be_value(framed(payload).subrange(0, 4)) < 0xffff_ffff,
{
    lemma_u32_be(payload.len());
    assert(framed(payload).subrange(0, 4) =~= u32_be(payload.len()));
}

/// Decoding what was encoded gives back the value and consumes exactly its
/// bytes, wherever in a buffer the encoding stands.
pub proof fn lemma_dec_enc(v: Value, ty: Ty, data: Seq<u8>, p: int)
    requires
        conforms(v, ty),
        encodable(v),
        0 <= p,
        p + enc(v).len() <= data.len(),
        data.subrange(p, p + enc(v).len()) == enc(v),
    ensures
        dec(ty, data, p) == Some((model_of(v), p + enc(v).len())),
    decreases v,
{
    lemma_pow256_values();
    match v {
        Value::I8(x) => {
            lemma_number((x as u8) as nat, 1);
            lemma_split(data, p, u32_be(1), be_bytes((x as u8) as nat, 1));
            assert(((x as u8) as i8) == x) by (bit_vector);
        },
        Value::I16(x) => {
            lemma_number((x as u16) as nat, 2);
            lemma_split(data, p, u32_be(2), be_bytes((x as u16) as nat, 2));
            assert(((x as u16) as i16) == x) by (bit_vector);
        },
        Value::I32(x) => {
            lemma_number((x as u32) as nat, 4);
            lemma_split(data, p, u32_be(4), be_bytes((x as u32) as nat, 4));
            assert(((x as u32) as i32) == x) by (bit_vector);
        },
        Value::I64(x) => {
            lemma_number((x as u64) as nat, 8);
            lemma_split(data, p, u32_be(8), be_bytes((x as u64) as nat, 8));
            assert(((x as u64) as i64) == x) by (bit_vector);
        },
        Value::I128(x) => {
            lemma_number((x as u128) as nat, 16);
            lemma_split(data, p, u32_be(16), be_bytes((x as u128) as nat, 16));
            assert(((x as u128) as i128) == x) by (bit_vector);
        },
        Value::Isize(x) => {
            let y = x as i64;
            lemma_number((y as u64) as nat, 8);
            lemma_split(data, p, u32_be(8), be_bytes((y as u64) as nat, 8));
            assert(((y as u64) as i64) == y) by (bit_vector);
        },
        Value::U8(x) => {
            lemma_number(x as nat, 1);
            lemma_split(data, p, u32_be(1), be_bytes(x as nat, 1));
        },
        Value::U16(x) => {
            lemma_number(x as nat, 2);
            lemma_split(data, p, u32_be(2), be_bytes(x as nat, 2));
        },
        Value::U32(x) => {
            lemma_number(x as nat, 4);
            lemma_split(data, p, u32_be(4), be_bytes(x as nat, 4));
        },
        Value::U64(x) => {
            lemma_number(x as nat, 8);
            lemma_split(data, p, u32_be(8), be_bytes(x as nat, 8));
        },
        Value::U128(x) => {
            lemma_number(x as nat, 16);
            lemma_split(data, p, u32_be(16), be_bytes(x as nat, 16));
        },
        Value::Usize(x) => {
            lemma_number(x as nat, 8);
            lemma_split(data, p, u32_be(8), be_bytes(x as nat, 8));
        },
        Value::Bool(b) => {
            lemma_number(if b { 1 } else { 0 }, 1);
            lemma_split(data, p, u32_be(1), be_bytes(if b { 1 } else { 0 }, 1));
        },
        Value::Char(c) => {
            lemma_number((c as u32) as nat, 4);
            lemma_split(data, p, u32_be(4), be_bytes((c as u32) as nat, 4));
            char_is_scalar(c);
            char_u32_cast(c, c as u32);
        },
        Value::Text(s) => {
            let b = encode_utf8(s@);
            lemma_u32_be(b.len());
            lemma_word(data, p, b.len(), b);
            encode_utf8_valid_utf8(s@);
            encode_utf8_decode_utf8(s@);
        },
        Value::Absent => {
            reveal_with_fuel(be_value, 5);
            assert(data.subrange(p, p + 4) =~= absent_marker());
        },
        Value::Present(b) => {
            match ty {
                Ty::Optional(t) => {
                    lemma_head(*b, *t);
                    assert(data.subrange(p, p + 4) =~= enc(*b).subrange(0, 4));
                    lemma_dec_enc(*b, *t, data, p);
                },
                _ => {},
            }
        },
        Value::List(items) => {
            let n = items@.len();
            let e = enc_all(items@);
            lemma_be_bytes_len(n, 4);
            lemma_be_bytes_len((4 + e.len()) as nat, 4);
            lemma_enc_all_len(items@);
            lemma_u32_be(n);
            lemma_word(data, p, (4 + e.len()) as nat, u32_be(n) + e);
            lemma_word(data, p + 4, n, e);
            match ty {
                Ty::Sequence(t) => lemma_dec_items(ty, *t, items@, data, p + 8),
                Ty::FixedArray(t, _) => lemma_dec_items(ty, *t, items@, data, p + 8),
                _ => {},
            }
        },
        Value::Record(items) => {
            let e = enc_all(items@);
            lemma_be_bytes_len(e.len(), 4);
            lemma_word(data, p, e.len(), e);
            match ty {
                Ty::Record(tys) => lemma_dec_seq(items@, tys@, data, p + 4),
                _ => {},
            }
        },
        Value::Variant(i, items) => {
            let e = enc_all(items@);
            lemma_u32_be(i as nat);
            lemma_be_bytes_len((4 + e.len()) as nat, 4);
            lemma_word(data, p, (4 + e.len()) as nat, u32_be(i as nat) + e);
            lemma_word(data, p + 4, i as nat, e);
            match ty {
                Ty::Variant(vs) => lemma_dec_seq(items@, vs@[i as int]@, data, p + 8),
                _ => {},
            }
        },
        Value::EitherOk(x) => {
            let e = enc(*x);
            lemma_u32_be(0);
            lemma_be_bytes_len((4 + e.len()) as nat, 4);
            lemma_word(data, p, (4 + e.len()) as nat, u32_be(0) + e);
            lemma_word(data, p + 4, 0, e);
            match ty {
                Ty::Either(a, _) => lemma_dec_enc(*x, *a, data, p + 8),
                _ => {},
            }
        },
        Value::EitherErr(x) => {
            let e = enc(*x);
            lemma_u32_be(1);
            lemma_be_bytes_len((4 + e.len()) as nat, 4);
            lemma_word(data, p, (4 + e.len()) as nat, u32_be(1) + e);
            lemma_word(data, p + 4, 1, e);
            match ty {
                Ty::Either(_, b) => lemma_dec_enc(*x, *b, data, p + 8),
                _ => {},
            }
        },
        Value::Mapping(es) => {
            let n = es@.len();
            let e = enc_pairs(es@);
            lemma_be_bytes_len(n, 4);
            lemma_be_bytes_len((4 + e.len()) as nat, 4);
            lemma_enc_pairs_len(es@);
            lemma_u32_be(n);
            lemma_word(data, p, (4 + e.len()) as nat, u32_be(n) + e);
            lemma_word(data, p + 4, n, e);
            match ty {
                Ty::Mapping(k, t) => lemma_dec_pairs(ty, *k, *t, es@, data, p + 8),
                _ => {},
            }
        },
    }
}

proof fn lemma_dec_items(cty: Ty, elem: Ty, items: Seq<Value>, data: Seq<u8>, p: int)
    requires
        (cty matches Ty::Sequence(t) && *t == elem) || (cty matches Ty::FixedArray(t, _) && *t
            == elem),
        all_conform(items, elem),
        enc_all(items).len() < 0xffff_ffff,
        0 <= p,
        p + enc_all(items).len() <= data.len(),
        data.subrange(p, p + enc_all(items).len()) == enc_all(items),
    ensures
        dec_items(cty, items.len(), data, p) == Some((models_of(items), p + enc_all(items).len())),
    decreases items,
{
    if items.len() > 0 {
        let a = enc(items[0]);
        let b = enc_all(items.drop_first());
        lemma_split(data, p, a, b);
        lemma_dec_enc(items[0], elem, data, p);
        lemma_dec_items(cty, elem, items.drop_first(), data, p + a.len());
    }
}

proof fn lemma_dec_seq(items: Seq<Value>, tys: Seq<Ty>, data: Seq<u8>, p: int)
    requires
        each_conforms(items, tys),
        enc_all(items).len() < 0xffff_ffff,
        0 <= p,
        p + enc_all(items).len() <= data.len(),
        data.subrange(p, p + enc_all(items).len()) == enc_all(items),
    ensures
        dec_seq(tys, data, p) == Some((models_of(items), p + enc_all(items).len())),
    decreases items,
{
    if items.len() > 0 {
        let a = enc(items[0]);
        let b = enc_all(items.drop_first());
        lemma_split(data, p, a, b);
        lemma_dec_enc(items[0], tys[0], data, p);
        lemma_dec_seq(items.drop_first(), tys.drop_first(), data, p + a.len());
    }
}

proof fn lemma_dec_pairs(mty: Ty, k: Ty, t: Ty, es: Seq<(Value, Value)>, data: Seq<u8>, p: int)
    requires
        mty == Ty::Mapping(Box::new(k), Box::new(t)),
        pairs_conform(es, k, t),
        enc_pairs(es).len() < 0xffff_ffff,
        0 <= p,
        p + enc_pairs(es).len() <= data.len(),
        data.subrange(p, p + enc_pairs(es).len()) == enc_pairs(es),
    ensures
        dec_pairs(mty, es.len(), data, p) == Some((pair_models_of(es), p + enc_pairs(es).len())),
    decreases es,
{
    if es.len() > 0 {
        let a = enc(es[0].0);
        let b = enc(es[0].1);
        let c = enc_pairs(es.drop_first());
        lemma_split(data, p, a + b, c);
        lemma_split(data, p, a, b);
        lemma_dec_enc(es[0].0, k, data, p);
        lemma_dec_enc(es[0].1, t, data, p + a.len());
        lemma_dec_pairs(mty, k, t, es.drop_first(), data, p + a.len() + b.len());
    }
}

/// Round trip: decoding the encoding of a value of type `ty`, followed by
/// any other bytes, yields that value and consumes exactly its encoding.
pub proof fn lemma_round_trip(v: Value, ty: Ty, rest: Seq<u8>)
    requires
        conforms(v, ty),
        encodable(v),
    ensures
        dec(ty, enc(v) + rest, 0) == Some((v@, enc(v).len() as int)),
{
    let data = enc(v) + rest;
    assert(data.subrange(0, enc(v).len() as int) =~= enc(v));
    lemma_dec_enc(v, ty, data, 0);
}

// ---------------------------------------------------------------------------
// Executable encoder

pub proof fn lemma_models_push(items: Seq<Value>, v: Value)
    ensures
        models_of(items.push(v)) == models_of(items) + seq![model_of(v)],
    decreases items.len(),
{
    if items.len() == 0 {
        assert(items.push(v).drop_first() =~= Seq::<Value>::empty());
        assert(models_of(Seq::<Value>::empty()) =~= Seq::<Model>::empty());
        assert(models_of(items) =~= Seq::<Model>::empty());
        assert(models_of(items.push(v)) =~= models_of(items) + seq![model_of(v)]);
    } else {
        assert(items.push(v).drop_first() =~= items.drop_first().push(v));
        lemma_models_push(items.drop_first(), v);
        assert(items.push(v)[0] == items[0]);
        assert(models_of(items.push(v)) =~= models_of(items) + seq![model_of(v)]);
    }
}

proof fn lemma_pair_models_push(es: Seq<(Value, Value)>, e: (Value, Value))
    ensures
        pair_models_of(es.push(e)) == pair_models_of(es) + seq![(model_of(e.0), model_of(e.1))],
    decreases es.len(),
{
    if es.len() == 0 {
        assert(es.push(e).drop_first() =~= Seq::<(Value, Value)>::empty());
        assert(pair_models_of(Seq::<(Value, Value)>::empty()) =~= Seq::<(Model, Model)>::empty());
        assert(pair_models_of(es) =~= Seq::<(Model, Model)>::empty());
        assert(pair_models_of(es.push(e)) =~= pair_models_of(es) + seq![
            (model_of(e.0), model_of(e.1)),
        ]);
    } else {
        assert(es.push(e).drop_first() =~= es.drop_first().push(e));
        lemma_pair_models_push(es.drop_first(), e);
        assert(es.push(e)[0] == es[0]);
        assert(pair_models_of(es.push(e)) =~= pair_models_of(es) + seq![
            (model_of(e.0), model_of(e.1)),
        ]);
    }
}

proof fn lemma_enc_all_take(items: Seq<Value>, i: int)
    requires
        0 <= i < items.len(),
    ensures
        enc_all(items.take(i + 1)) == enc_all(items.take(i)) + enc(items[i]),
    decreases i,
{
    if i == 0 {
        assert(items.take(1).drop_first() =~= Seq::<Value>::empty());
        assert(enc_all(Seq::<Value>::empty()) =~= Seq::<u8>::empty());
        assert(enc_all(items.take(0)) =~= Seq::<u8>::empty());
        assert(items.take(1)[0] == items[0]);
        assert(enc_all(items.take(1)) =~= enc(items[0]));
    } else {
        lemma_enc_all_take(items.drop_first(), i - 1);
        assert(items.take(i + 1).drop_first() =~= items.drop_first().take(i));
        assert(items.take(i).drop_first() =~= items.drop_first().take(i - 1));
        assert(enc_all(items.take(i + 1)) =~= enc_all(items.take(i)) + enc(items[i]));
    }
}

proof fn lemma_enc_pairs_take(es: Seq<(Value, Value)>, i: int)
    requires
        0 <= i < es.len(),
    ensures
        enc_pairs(es.take(i + 1)) == enc_pairs(es.take(i)) + enc(es[i].0) + enc(es[i].1),
    decreases i,
{
    if i == 0 {
        assert(es.take(1).drop_first() =~= Seq::<(Value, Value)>::empty());
        assert(enc_pairs(Seq::<(Value, Value)>::empty()) =~= Seq::<u8>::empty());
        assert(enc_pairs(es.take(0)) =~= Seq::<u8>::empty());
        assert(es.take(1)[0] == es[0]);
        assert(enc_pairs(es.take(1)) =~= enc(es[0].0) + enc(es[0].1));
    } else {
        lemma_enc_pairs_take(es.drop_first(), i - 1);
        assert(es.take(i + 1).drop_first() =~= es.drop_first().take(i));
        assert(es.take(i).drop_first() =~= es.drop_first().take(i - 1));
        assert(enc_pairs(es.take(i + 1)) =~= enc_pairs(es.take(i)) + enc(es[i].0) + enc(
            es[i].1,
        ));
    }
}

proof fn lemma_enc_all_item(items: Seq<Value>, i: int)
    requires
        0 <= i < items.len(),
    ensures
        enc(items[i]).len() <= enc_all(items).len(),
{
    lemma_enc_all_take(items, i);
    lemma_enc_all_prefix(items, i + 1);
    assert(items.take(items.len() as int) =~= items);
}

proof fn lemma_enc_all_prefix(items: Seq<Value>, i: int)
    requires
        0 <= i <= items.len(),
    ensures
        enc_all(items.take(i)).len() <= enc_all(items).len(),
    decreases items.len() - i,
{
    if i < items.len() {
        lemma_enc_all_take(items, i);
        lemma_enc_all_prefix(items, i + 1);
    } else {
        assert(items.take(i) =~= items);
    }
}

proof fn lemma_enc_pairs_prefix(es: Seq<(Value, Value)>, i: int)
    requires
        0 <= i <= es.len(),
    ensures
        enc_pairs(es.take(i)).len() <= enc_pairs(es).len(),
    decreases es.len() - i,
{
    if i < es.len() {
        lemma_enc_pairs_take(es, i);
        lemma_enc_pairs_prefix(es, i + 1);
    } else {
        assert(es.take(i) =~= es);
    }
}

fn push_word(out: &mut Vec<u8>, n: u32)
    ensures
        final(out)@ == old(out)@ + u32_be(n as nat),
{
    push_be(out, n as u128, 4);
}

fn push_number(out: &mut Vec<u8>, bits: u128, w: usize)
    requires
        w <= 16,
    ensures
        final(out)@ == old(out)@ + number(bits as nat, w as nat),
{
    let ghost start = out@;
    push_word(out, w as u32);
    push_be(out, bits, w);
    assert(out@ =~= start + number(bits as nat, w as nat));
}

fn push_framed(out: &mut Vec<u8>, payload: Vec<u8>)
    requires
        payload@.len() < 0x1_0000_0000,
    ensures
        final(out)@ == old(out)@ + framed(payload@),
{
    let ghost start = out@;
    let ghost body = payload@;
    let mut payload = payload;
    push_word(out, payload.len() as u32);
    out.append(&mut payload);
    assert(out@ =~= start + framed(body));
}

/// Appends the encoding of `v` to `out`.
pub fn encode_into(v: &Value, out: &mut Vec<u8>)
    requires
        encodable(*v),
    ensures
        final(out)@ == old(out)@ + enc(*v),
    decreases v,
{
    proof {
        lemma_enc_len(*v);
    }
    match v {
        Value::I8(x) => push_number(out, (*x as u8) as u128, 1),
        Value::I16(x) => push_number(out, (*x as u16) as u128, 2),
        Value::I32(x) => push_number(out, (*x as u32) as u128, 4),
        Value::I64(x) => push_number(out, (*x as u64) as u128, 8),
        Value::I128(x) => push_number(out, *x as u128, 16),
        Value::Isize(x) => push_number(out, ((*x as i64) as u64) as u128, 8),
        Value::U8(x) => push_number(out, *x as u128, 1),
        Value::U16(x) => push_number(out, *x as u128, 2),
        Value::U32(x) => push_number(out, *x as u128, 4),
        Value::U64(x) => push_number(out, *x as u128, 8),
        Value::U128(x) => push_number(out, *x, 16),
        Value::Usize(x) => push_number(out, *x as u128, 8),
        Value::Bool(b) => push_number(out, if *b { 1 } else { 0 }, 1),
        Value::Char(c) => push_number(out, (*c as u32) as u128, 4),
        Value::Text(s) => {
            let bytes = s.as_str().as_bytes();
            let mut payload: Vec<u8> = Vec::new();
            let mut i: usize = 0;
            while i < bytes.len()
                invariant
                    i <= bytes@.len(),
                    payload@ == bytes@.take(i as int),
                decreases bytes@.len() - i,
            {
                payload.push(bytes[i]);
                i = i + 1;
                proof {
                    assert(payload@ =~= bytes@.take(i as int));
                }
            }
            proof {
                assert(payload@ =~= bytes@);
                lemma_be_bytes_len(payload@.len(), 4);
            }
            push_framed(out, payload);
        },
        Value::Absent => {
            out.push(0xff);
            out.push(0xff);
            out.push(0xff);
            out.push(0xff);
            proof {
                assert(final(out)@ =~= old(out)@ + absent_marker());
            }
        },
        Value::Present(b) => encode_into(b, out),
        Value::List(items) => {
            let ghost e = enc_all(items@);
            proof {
                lemma_be_bytes_len(items@.len(), 4);
                lemma_be_bytes_len((4 + e.len()) as nat, 4);
                lemma_enc_all_len(items@);
            }
            let mut payload: Vec<u8> = Vec::new();
            push_word(&mut payload, items.len() as u32);
            encode_all(items, &mut payload);
            push_framed(out, payload);
        },
        Value::Record(items) => {
            let ghost e = enc_all(items@);
            proof {
                lemma_be_bytes_len(e.len(), 4);
            }
            let mut payload: Vec<u8> = Vec::new();
            encode_all(items, &mut payload);
            push_framed(out, payload);
        },
        Value::Variant(i, items) => {
            let ghost e = enc_all(items@);
            proof {
                lemma_be_bytes_len(*i as nat, 4);
                lemma_be_bytes_len((4 + e.len()) as nat, 4);
            }
            let mut payload: Vec<u8> = Vec::new();
            push_word(&mut payload, *i);
            encode_all(items, &mut payload);
            push_framed(out, payload);
        },
        Value::EitherOk(x) => {
            proof {
                lemma_be_bytes_len(0, 4);
                lemma_be_bytes_len((4 + enc(**x).len()) as nat, 4);
            }
            let mut payload: Vec<u8> = Vec::new();
            push_word(&mut payload, 0);
            encode_into(x, &mut payload);
            push_framed(out, payload);
        },
        Value::EitherErr(x) => {
            proof {
                lemma_be_bytes_len(1, 4);
                lemma_be_bytes_len((4 + enc(**x).len()) as nat, 4);
            }
            let mut payload: Vec<u8> = Vec::new();
            push_word(&mut payload, 1);
            encode_into(x, &mut payload);
            push_framed(out, payload);
        },
        Value::Mapping(es) => {
            let ghost e = enc_pairs(es@);
            proof {
                lemma_be_bytes_len(es@.len(), 4);
                lemma_be_bytes_len((4 + e.len()) as nat, 4);
                lemma_enc_pairs_len(es@);
            }
            let mut payload: Vec<u8> = Vec::new();
            push_word(&mut payload, es.len() as u32);
            encode_pairs(es, &mut payload);
            push_framed(out, payload);
        },
    }
}

fn encode_all(items: &Vec<Value>, out: &mut Vec<u8>)
    requires
        enc_all(items@).len() < 0xffff_ffff,
    ensures
        final(out)@ == old(out)@ + enc_all(items@),
    decreases items,
{
    let mut i: usize = 0;
    while i < items.len()
        invariant
            i <= items@.len(),
            enc_all(items@).len() < 0xffff_ffff,
            out@ == old(out)@ + enc_all(items@.take(i as int)),
        decreases items@.len() - i,
    {
        proof {
            lemma_enc_all_take(items@, i as int);
            lemma_enc_all_item(items@, i as int);
        }
        encode_into(&items[i], out);
        i = i + 1;
    }
    proof {
        assert(items@.take(items@.len() as int) =~= items@);
    }
}

fn encode_pairs(es: &Vec<(Value, Value)>, out: &mut Vec<u8>)
    requires
        enc_pairs(es@).len() < 0xffff_ffff,
    ensures
        final(out)@ == old(out)@ + enc_pairs(es@),
    decreases es,
{
    let mut i: usize = 0;
    while i < es.len()
        invariant
            i <= es@.len(),
            enc_pairs(es@).len() < 0xffff_ffff,
            out@ == old(out)@ + enc_pairs(es@.take(i as int)),
        decreases es@.len() - i,
    {
        proof {
            lemma_enc_pairs_take(es@, i as int);
            lemma_enc_pairs_prefix(es@, i as int + 1);
        }
        encode_into(&es[i].0, out);
        encode_into(&es[i].1, out);
        i = i + 1;
    }
    proof {
        assert(es@.take(es@.len() as int) =~= es@);
    }
}

/// The length of the encoding of `v`, capped at `2^32 - 1`.
pub open spec fn capped_len(v: Value) -> nat {
    if enc(v).len() < 0xffff_ffff {
        enc(v).len()
    } else {
        0xffff_ffff
    }
}

fn add_capped(a: u64, b: u64) -> (r: u64)
    requires
        a <= 0xffff_ffff,
        b <= 0xffff_ffff,
    ensures
        r == if a + b < 0xffff_ffff { a + b } else { 0xffff_ffff },
{
    if a + b < 0xffff_ffff {
        a + b
    } else {
        0xffff_ffff
    }
}

/// The length of the encoding of `v`, or `2^32 - 1` when it is that long
/// or longer.
pub fn encoded_len(v: &Value) -> (r: u64)
    ensures
        r == capped_len(*v),
    decreases v,
{
    proof {
        lemma_be_bytes_len(0, 4);
        lemma_pow256_values();
    }
    match v {
        Value::I8(x) => {
            proof { lemma_be_bytes_len((*x as u8) as nat, 1); }
            5
        },
        Value::U8(x) => {
            proof { lemma_be_bytes_len(*x as nat, 1); }
            5
        },
        Value::Bool(b) => {
            proof { lemma_be_bytes_len(if *b { 1 } else { 0 }, 1); }
            5
        },
        Value::I16(x) => {
            proof { lemma_be_bytes_len((*x as u16) as nat, 2); }
            6
        },
        Value::U16(x) => {
            proof { lemma_be_bytes_len(*x as nat, 2); }
            6
        },
        Value::I32(x) => {
            proof { lemma_be_bytes_len((*x as u32) as nat, 4); }
            8
        },
        Value::U32(x) => {
            proof { lemma_be_bytes_len(*x as nat, 4); }
            8
        },
        Value::Char(c) => {
            proof { lemma_be_bytes_len((*c as u32) as nat, 4); }
            8
        },
        Value::I64(x) => {
            proof { lemma_be_bytes_len((*x as u64) as nat, 8); }
            12
        },
        Value::U64(x) => {
            proof { lemma_be_bytes_len(*x as nat, 8); }
            12
        },
        Value::Isize(x) => {
            proof { lemma_be_bytes_len(((*x as i64) as u64) as nat, 8); }
            12
        },
        Value::Usize(x) => {
            proof { lemma_be_bytes_len(*x as nat, 8); }
            12
        },
        Value::I128(x) => {
            proof { lemma_be_bytes_len((*x as u128) as nat, 16); }
            20
        },
        Value::U128(x) => {
            proof { lemma_be_bytes_len(*x as nat, 16); }
            20
        },
        Value::Text(s) => {
            let n = s.as_str().as_bytes().len();
            proof {
                lemma_be_bytes_len(n as nat, 4);
            }
            if n as u64 >= 0xffff_ffff - 4 {
                0xffff_ffff
            } else {
                4 + n as u64
            }
        },
        Value::Absent => 4,
        Value::Present(b) => encoded_len(b),
        Value::EitherOk(x) => {
            proof {
                lemma_be_bytes_len((4 + enc(**x).len()) as nat, 4);
            }
            add_capped(8, encoded_len(x))
        },
        Value::EitherErr(x) => {
            proof {
                lemma_be_bytes_len(1, 4);
                lemma_be_bytes_len((4 + enc(**x).len()) as nat, 4);
            }
            add_capped(8, encoded_len(x))
        },
        Value::List(items) => {
            proof {
                lemma_be_bytes_len(items@.len(), 4);
                lemma_be_bytes_len((4 + enc_all(items@).len()) as nat, 4);
            }
            add_capped(8, encoded_all_len(items))
        },
        Value::Record(items) => {
            proof {
                lemma_be_bytes_len(enc_all(items@).len(), 4);
            }
            add_capped(4, encoded_all_len(items))
        },
        Value::Variant(i, items) => {
            proof {
                lemma_be_bytes_len(*i as nat, 4);
                lemma_be_bytes_len((4 + enc_all(items@).len()) as nat, 4);
            }
            add_capped(8, encoded_all_len(items))
        },
        Value::Mapping(es) => {
            proof {
                lemma_be_bytes_len(es@.len(), 4);
                lemma_be_bytes_len((4 + enc_pairs(es@).len()) as nat, 4);
            }
            add_capped(8, encoded_pairs_len(es))
        },
    }
}

fn encoded_all_len(items: &Vec<Value>) -> (r: u64)
    ensures
        r == if enc_all(items@).len() < 0xffff_ffff { enc_all(items@).len() } else { 0xffff_ffff },
    decreases items,
{
    let mut total: u64 = 0;
    let mut i: usize = 0;
    while i < items.len()
        invariant
            i <= items@.len(),
            total == if enc_all(items@.take(i as int)).len() < 0xffff_ffff { enc_all(items@.take(i as int)).len() } else { 0xffff_ffff },
        decreases items@.len() - i,
    {
        proof {
            lemma_enc_all_take(items@, i as int);
        }
        total = add_capped(total, encoded_len(&items[i]));
        i = i + 1;
    }
    proof {
        assert(items@.take(i as int) =~= items@);
    }
    total
}

fn encoded_pairs_len(es: &Vec<(Value, Value)>) -> (r: u64)
    ensures
        r == if enc_pairs(es@).len() < 0xffff_ffff { enc_pairs(es@).len() } else { 0xffff_ffff },
    decreases es,
{
    let mut total: u64 = 0;
    let mut i: usize = 0;
    while i < es.len()
        invariant
            i <= es@.len(),
            total == if enc_pairs(es@.take(i as int)).len() < 0xffff_ffff { enc_pairs(es@.take(i as int)).len() } else { 0xffff_ffff },
        decreases es@.len() - i,
    {
        proof {
            lemma_enc_pairs_take(es@, i as int);
        }
        let k = encoded_len(&es[i].0);
        let v = encoded_len(&es[i].1);
        total = add_capped(add_capped(total, k), v);
        i = i + 1;
    }
    proof {
        assert(es@.take(i as int) =~= es@);
    }
    total
}

/// The encoding of `v`, or `None` when it would reach `2^32 - 1` bytes.
pub fn try_encode(v: &Value) -> (r: Option<Vec<u8>>)
    ensures
        encodable(*v) <==> r is Some,
        r matches Some(b) ==> b@ == enc(*v),
{
    if encoded_len(v) < 0xffff_ffff {
        Some(encode(v))
    } else {
        None
    }
}

/// The encoding of `v`.
pub fn encode(v: &Value) -> (r: Vec<u8>)
    requires
        encodable(*v),
    ensures
        r@ == enc(*v),
{
    let mut out: Vec<u8> = Vec::new();
    encode_into(v, &mut out);
    proof {
        assert(out@ =~= enc(*v));
    }
    out
}

// ---------------------------------------------------------------------------
// Comparing values by their models

/// The sign and magnitude of an integer value.
fn int_parts(v: &Value) -> (r: Option<(bool, u128)>)
    ensures
        r matches Some((neg, m)) ==> v@ matches Model::Int(x) && x == (if neg {
            -(m as int)
        } else {
            m as int
        }) && (neg ==> m > 0),
        r is None ==> !(v@ is Int),
{
    match v {
        Value::I8(x) => if *x < 0 { Some((true, (-(*x as i16)) as u128)) } else { Some((false, *x as u128)) },
        Value::I16(x) => if *x < 0 { Some((true, (-(*x as i32)) as u128)) } else { Some((false, *x as u128)) },
        Value::I32(x) => if *x < 0 { Some((true, (-(*x as i64)) as u128)) } else { Some((false, *x as u128)) },
        Value::I64(x) => if *x < 0 { Some((true, (-(*x as i128)) as u128)) } else { Some((false, *x as u128)) },
        Value::I128(x) => if *x < 0 {
            if *x == i128::MIN {
                Some((true, 0x8000_0000_0000_0000_0000_0000_0000_0000u128))
            } else {
                Some((true, (-*x) as u128))
            }
        } else {
            Some((false, *x as u128))
        },
        Value::Isize(x) => if *x < 0 { Some((true, (-(*x as i128)) as u128)) } else { Some((false, *x as u128)) },
        Value::U8(x) => Some((false, *x as u128)),
        Value::U16(x) => Some((false, *x as u128)),
        Value::U32(x) => Some((false, *x as u128)),
        Value::U64(x) => Some((false, *x as u128)),
        Value::U128(x) => Some((false, *x)),
        Value::Usize(x) => Some((false, *x as u128)),
        _ => None,
    }
}

/// Whether two values have the same model.
pub fn same_model(a: &Value, b: &Value) -> (r: bool)
    ensures
        r == (a@ == b@),
    decreases a,
{
    match (int_parts(a), int_parts(b)) {
        (Some(x), Some(y)) => return x.0 == y.0 && x.1 == y.1,
        (Some(_), None) => return false,
        (None, Some(_)) => return false,
        (None, None) => {},
    }
    match (a, b) {
        (Value::Bool(x), Value::Bool(y)) => *x == *y,
        (Value::Char(x), Value::Char(y)) => *x == *y,
        (Value::Text(x), Value::Text(y)) => *x == *y,
        (Value::Absent, Value::Absent) => true,
        (Value::Present(x), Value::Present(y)) => same_model(x, y),
        (Value::List(xs), Value::List(ys)) => same_models(xs, ys),
        (Value::Record(xs), Value::Record(ys)) => same_models(xs, ys),
        (Value::Variant(i, xs), Value::Variant(j, ys)) => *i == *j && same_models(xs, ys),
        (Value::EitherOk(x), Value::EitherOk(y)) => same_model(x, y),
        (Value::EitherErr(x), Value::EitherErr(y)) => same_model(x, y),
        (Value::Mapping(xs), Value::Mapping(ys)) => same_pair_models(xs, ys),
        _ => false,
    }
}

fn same_models(xs: &Vec<Value>, ys: &Vec<Value>) -> (r: bool)
    ensures
        r == (models_of(xs@) == models_of(ys@)),
    decreases xs,
{
    proof {
        lemma_models_index(xs@);
        lemma_models_index(ys@);
    }
    if xs.len() != ys.len() {
        return false;
    }
    let mut i: usize = 0;
    while i < xs.len()
        invariant
            i <= xs@.len(),
            xs@.len() == ys@.len(),
            models_of(xs@).len() == xs@.len(),
            models_of(ys@).len() == ys@.len(),
            forall|j: int| 0 <= j < xs@.len() ==> #[trigger] models_of(xs@)[j] == model_of(xs@[j]),
            forall|j: int| 0 <= j < ys@.len() ==> #[trigger] models_of(ys@)[j] == model_of(ys@[j]),
            forall|j: int| 0 <= j < i ==> model_of(xs@[j]) == model_of(ys@[j]),
        decreases xs@.len() - i,
    {
        if !same_model(&xs[i], &ys[i]) {
            proof {
                assert(models_of(xs@)[i as int] != models_of(ys@)[i as int]);
            }
            return false;
        }
        i = i + 1;
    }
    proof {
        assert(models_of(xs@) =~= models_of(ys@));
    }
    true
}

proof fn lemma_pair_models_index(es: Seq<(Value, Value)>)
    ensures
        pair_models_of(es).len() == es.len(),
        forall|i: int| 0 <= i < es.len() ==> #[trigger] pair_models_of(es)[i] == (model_of(es[i].0), model_of(es[i].1)),
    decreases es.len(),
{
    if es.len() > 0 {
        lemma_pair_models_index(es.drop_first());
        assert forall|i: int| 0 <= i < es.len() implies #[trigger] pair_models_of(es)[i] == (model_of(es[i].0), model_of(es[i].1)) by {
            if i > 0 {
                assert(es.drop_first()[i - 1] == es[i]);
            }
        }
    }
}

fn same_pair_models(xs: &Vec<(Value, Value)>, ys: &Vec<(Value, Value)>) -> (r: bool)
    ensures
        r == (pair_models_of(xs@) == pair_models_of(ys@)),
    decreases xs,
{
    proof {
        lemma_pair_models_index(xs@);
        lemma_pair_models_index(ys@);
    }
    if xs.len() != ys.len() {
        return false;
    }
    let mut i: usize = 0;
    while i < xs.len()
        invariant
            i <= xs@.len(),
            xs@.len() == ys@.len(),
            pair_models_of(xs@).len() == xs@.len(),
            pair_models_of(ys@).len() == ys@.len(),
            forall|j: int| 0 <= j < xs@.len() ==> #[trigger] pair_models_of(xs@)[j] == (model_of(xs@[j].0), model_of(xs@[j].1)),
            forall|j: int| 0 <= j < ys@.len() ==> #[trigger] pair_models_of(ys@)[j] == (model_of(ys@[j].0), model_of(ys@[j].1)),
            forall|j: int| 0 <= j < i ==> pair_models_of(xs@)[j] == pair_models_of(ys@)[j],
        decreases xs@.len() - i,
    {
        let k = same_model(&xs[i].0, &ys[i].0);
        let v = same_model(&xs[i].1, &ys[i].1);
        if !k || !v {
            proof {
                assert(pair_models_of(xs@)[i as int] != pair_models_of(ys@)[i as int]);
            }
            return false;
        }
        i = i + 1;
    }
    proof {
        assert(pair_models_of(xs@) =~= pair_models_of(ys@));
    }
    true
}

/// The position of an entry whose key has the model of `k`.
fn key_index(es: &Vec<(Value, Value)>, k: &Value) -> (r: Option<usize>)
    ensures
        r matches Some(j) ==> j < es@.len() && model_of(es@[j as int].0) == k@,
        r is None ==> forall|m: int| 0 <= m < es@.len() ==> model_of(es@[m].0) != k@,
{
    let mut j: usize = 0;
    while j < es.len()
        invariant
            j <= es@.len(),
            forall|m: int| 0 <= m < j ==> model_of(es@[m].0) != k@,
        decreases es@.len() - j,
    {
        if same_model(&es[j].0, k) {
            return Some(j);
        }
        j = j + 1;
    }
    None
}

// ---------------------------------------------------------------------------
// Executable decoder

fn read_word(data: &Vec<u8>, pos: usize) -> (r: Option<u32>)
    ensures
        r matches Some(w) ==> word_at(data@, pos as int) == Some(w as nat) && pos + 4 <= data@.len(),
        r is None ==> word_at(data@, pos as int) is None,
        data@.len() <= usize::MAX,
{
    let len = data.len();
    if pos <= len && len - pos >= 4 {
        let n = read_be(data, pos, 4);
        proof {
            lemma_be_value_bound(data@.subrange(pos as int, pos + 4));
            lemma_pow256_values();
        }
        Some(n as u32)
    } else {
        None
    }
}

fn prim_width(k: PrimKind) -> (w: usize)
    ensures
        w as nat == width(k),
{
    match k {
        PrimKind::I8 | PrimKind::U8 | PrimKind::Bool => 1,
        PrimKind::I16 | PrimKind::U16 => 2,
        PrimKind::I32 | PrimKind::U32 | PrimKind::Char => 4,
        PrimKind::I64 | PrimKind::U64 | PrimKind::Isize | PrimKind::Usize => 8,
        PrimKind::I128 | PrimKind::U128 => 16,
        PrimKind::Text => 0,
    }
}

fn copy_range(data: &Vec<u8>, from: usize, to: usize) -> (r: Vec<u8>)
    requires
        from <= to <= data@.len(),
    ensures
        r@ == data@.subrange(from as int, to as int),
{
    let mut r: Vec<u8> = Vec::new();
    let mut i = from;
    while i < to
        invariant
            from <= i <= to <= data@.len(),
            r@ == data@.subrange(from as int, i as int),
        decreases to - i,
    {
        r.push(data[i]);
        i = i + 1;
        proof {
            assert(r@ =~= data@.subrange(from as int, i as int));
        }
    }
    r
}

fn decode_prim(k: PrimKind, data: &Vec<u8>, pos: usize) -> (r: Option<(Value, usize)>)
    ensures
        match r {
            Some((v, q)) => dec(Ty::Prim(k), data@, pos as int) == Some((v@, q as int)),
            None => dec(Ty::Prim(k), data@, pos as int) is None,
        },
{
    let len = data.len();
    if let PrimKind::Text = k {
        let n = match read_word(data, pos) {
            Some(n) => n,
            None => return None,
        };
        let start = pos + 4;
        if len - start < n as usize {
            return None;
        }
        let end = start + n as usize;
        let bytes = copy_range(data, start, end);
        let text = text_from_utf8_lossy(bytes.as_slice());
        return Some((Value::Text(text), end));
    }
    let w = prim_width(k);
    if pos > len || len - pos < 4 || len - pos - 4 < w {
        return None;
    }
    let n = read_be(data, pos + 4, w);
    let end = pos + 4 + w;
    proof {
        lemma_be_value_bound(data@.subrange(pos + 4, pos + 4 + w));
        lemma_pow256_values();
    }
    let v = match k {
        PrimKind::I8 => Value::I8((n as u8) as i8),
        PrimKind::I16 => Value::I16((n as u16) as i16),
        PrimKind::I32 => Value::I32((n as u32) as i32),
        PrimKind::I64 => Value::I64((n as u64) as i64),
        PrimKind::I128 => Value::I128(n as i128),
        PrimKind::Isize => {
            let x = (n as u64) as i64;
            if x < isize::MIN as i64 || x > isize::MAX as i64 {
                return None;
            }
            Value::Isize(x as isize)
        },
        PrimKind::U8 => Value::U8(n as u8),
        PrimKind::U16 => Value::U16(n as u16),
        PrimKind::U32 => Value::U32(n as u32),
        PrimKind::U64 => Value::U64(n as u64),
        PrimKind::U128 => Value::U128(n),
        PrimKind::Usize => {
            if n > usize::MAX as u128 {
                return None;
            }
            Value::Usize(n as usize)
        },
        PrimKind::Bool => Value::Bool(n != 0),
        PrimKind::Char => match char_from_u32(n as u32) {
            Some(c) => Value::Char(c),
            None => return None,
        },
        PrimKind::Text => return None,
    };
    Some((v, end))
}

/// Decodes a value of type `ty` from `data` at `pos`: the value and the
/// position just after it, or `None` when the bytes hold no such value.
pub fn decode_at(ty: &Ty, data: &Vec<u8>, pos: usize) -> (r: Option<(Value, usize)>)
    ensures
        match r {
            Some((v, q)) => dec(*ty, data@, pos as int) == Some((v@, q as int)),
            None => dec(*ty, data@, pos as int) is None,
        },
    decreases ty, 0nat,
{
    match ty {
        Ty::Prim(k) => decode_prim(*k, data, pos),
        Ty::Optional(t) => match read_word(data, pos) {
            None => None,
            Some(w) => if w == 0xffff_ffff {
                Some((Value::Absent, pos + 4))
            } else {
                match decode_at(t, data, pos) {
                    Some((v, q)) => Some((Value::Present(Box::new(v)), q)),
                    None => None,
                }
            },
        },
        Ty::Sequence(t) => {
            let len = match read_word(data, pos) {
                Some(l) => l,
                None => return None,
            };
            let n = match read_word(data, pos + 4) {
                Some(c) => c,
                None => return None,
            };
            match decode_items(ty, t, n, data, pos + 8) {
                Some((items, q)) => if q as u128 == pos as u128 + 4 + len as u128 {
                    Some((Value::List(items), q))
                } else {
                    None
                },
                None => None,
            }
        },
        Ty::FixedArray(t, count) => {
            let len = match read_word(data, pos) {
                Some(l) => l,
                None => return None,
            };
            let n = match read_word(data, pos + 4) {
                Some(c) => c,
                None => return None,
            };
            if n != *count {
                return None;
            }
            match decode_items(ty, t, n, data, pos + 8) {
                Some((items, q)) => if q as u128 == pos as u128 + 4 + len as u128 {
                    Some((Value::List(items), q))
                } else {
                    None
                },
                None => None,
            }
        },
        Ty::Record(tys) => {
            let len = match read_word(data, pos) {
                Some(l) => l,
                None => return None,
            };
            match decode_fields(tys, data, pos + 4) {
                Some((items, q)) => if q as u128 == pos as u128 + 4 + len as u128 {
                    Some((Value::Record(items), q))
                } else {
                    None
                },
                None => None,
            }
        },
        Ty::Variant(vs) => {
            let len = match read_word(data, pos) {
                Some(l) => l,
                None => return None,
            };
            let i = match read_word(data, pos + 4) {
                Some(c) => c,
                None => return None,
            };
            if i as usize >= vs.len() {
                return None;
            }
            match decode_fields(&vs[i as usize], data, pos + 8) {
                Some((items, q)) => if q as u128 == pos as u128 + 4 + len as u128 {
                    Some((Value::Variant(i, items), q))
                } else {
                    None
                },
                None => None,
            }
        },
        Ty::Either(a, b) => {
            let len = match read_word(data, pos) {
                Some(l) => l,
                None => return None,
            };
            let i = match read_word(data, pos + 4) {
                Some(c) => c,
                None => return None,
            };
            if i == 0 {
                match decode_at(a, data, pos + 8) {
                    Some((v, q)) => if q as u128 == pos as u128 + 4 + len as u128 {
                        Some((Value::EitherOk(Box::new(v)), q))
                    } else {
                        None
                    },
                    None => None,
                }
            } else if i == 1 {
                match decode_at(b, data, pos + 8) {
                    Some((v, q)) => if q as u128 == pos as u128 + 4 + len as u128 {
                        Some((Value::EitherErr(Box::new(v)), q))
                    } else {
                        None
                    },
                    None => None,
                }
            } else {
                None
            }
        },
        Ty::Mapping(k, t) => {
            let len = match read_word(data, pos) {
                Some(l) => l,
                None => return None,
            };
            let n = match read_word(data, pos + 4) {
                Some(c) => c,
                None => return None,
            };
            let ghost start = pos + 8;
            let mut es: Vec<(Value, Value)> = Vec::new();
            let mut p = pos + 8;
            let mut i: u32 = 0;
            proof {
                assert(pair_models_of(es@) =~= Seq::<(Model, Model)>::empty());
                match dec_pairs(*ty, n as nat, data@, start as int) {
                    Some((ms, q)) => {
                        assert(pair_models_of(es@) + ms =~= ms);
                    },
                    None => {},
                }
            }
            while i < n
                invariant
                    i <= n,
                    dec_pairs(*ty, n as nat, data@, start) == match dec_pairs(
                        *ty,
                        (n - i) as nat,
                        data@,
                        p as int,
                    ) {
                        Some((ms, q)) => Some((pair_models_of(es@) + ms, q)),
                        None => None,
                    },
                    *ty == Ty::Mapping(*k, *t),
                    word_at(data@, pos as int) == Some(len as nat),
                    word_at(data@, pos + 4) == Some(n as nat),
                    start == pos + 8,
                    keys_distinct(pair_models_of(es@)),
                decreases n - i,
            {
                let (kv, p1) = match decode_at(k, data, p) {
                    Some(x) => x,
                    None => {
                        proof {
                            assert(dec_pairs(*ty, (n - i) as nat, data@, p as int) is None);
                        }
                        return None;
                    },
                };
                let (vv, p2) = match decode_at(t, data, p1) {
                    Some(x) => x,
                    None => {
                        proof {
                            assert(dec_pairs(*ty, (n - i) as nat, data@, p as int) is None);
                        }
                        return None;
                    },
                };
                if let Some(j) = key_index(&es, &kv) {
                    proof {
                        lemma_pair_models_push(es@, (kv, vv));
                        lemma_pair_models_index(es@);
                        let rest = dec_pairs(*ty, (n - i - 1) as nat, data@, p2 as int);
                        match rest {
                            Some((ms, q)) => {
                                let all = pair_models_of(es@) + (seq![(kv@, vv@)] + ms);
                                assert(all[j as int].0 == all[es@.len() as int].0);
                                assert(!keys_distinct(all));
                            },
                            None => {},
                        }
                    }
                    return None;
                }
                proof {
                    lemma_pair_models_push(es@, (kv, vv));
                    lemma_pair_models_index(es@);
                    lemma_pair_models_index(es@.push((kv, vv)));
                    assert forall|a: int, b: int| 0 <= a < b < es@.len() + 1 implies pair_models_of(es@.push((kv, vv)))[a].0 != pair_models_of(es@.push((kv, vv)))[b].0 by {
                        if b < es@.len() {
                            assert(pair_models_of(es@.push((kv, vv)))[a] == pair_models_of(es@)[a]);
                            assert(pair_models_of(es@.push((kv, vv)))[b] == pair_models_of(es@)[b]);
                        } else {
                            assert(es@.push((kv, vv))[a] == es@[a]);
                        }
                    }
                    let rest = dec_pairs(*ty, (n - i - 1) as nat, data@, p2 as int);
                    match rest {
                        Some((ms, q)) => {
                            assert(pair_models_of(es@.push((kv, vv))) + ms =~= pair_models_of(es@)
                                + (seq![(kv@, vv@)] + ms));
                        },
                        None => {},
                    }
                }
                es.push((kv, vv));
                p = p2;
                i = i + 1;
            }
            proof {
                assert(pair_models_of(es@) + Seq::<(Model, Model)>::empty() =~= pair_models_of(
                    es@,
                ));
            }
            if p as u128 == pos as u128 + 4 + len as u128 {
                Some((Value::Mapping(es), p))
            } else {
                None
            }
        },
    }
}

fn decode_items(cty: &Ty, elem: &Ty, n: u32, data: &Vec<u8>, pos: usize) -> (r: Option<
    (Vec<Value>, usize),
>)
    requires
        (*cty matches Ty::Sequence(t) && *t == *elem) || (*cty matches Ty::FixedArray(t, _) && *t
            == *elem),
    ensures
        match r {
            Some((vs, q)) => dec_items(*cty, n as nat, data@, pos as int) == Some(
                (models_of(vs@), q as int),
            ),
            None => dec_items(*cty, n as nat, data@, pos as int) is None,
        },
    decreases elem, 1nat,
{
    let mut items: Vec<Value> = Vec::new();
    let mut p = pos;
    let mut i: u32 = 0;
    proof {
        assert(models_of(items@) =~= Seq::<Model>::empty());
        match dec_items(*cty, n as nat, data@, pos as int) {
            Some((ms, q)) => {
                assert(models_of(items@) + ms =~= ms);
            },
            None => {},
        }
    }
    while i < n
        invariant
            i <= n,
            (*cty matches Ty::Sequence(t) && *t == *elem) || (*cty matches Ty::FixedArray(t, _)
                && *t == *elem),
            dec_items(*cty, n as nat, data@, pos as int) == match dec_items(
                *cty,
                (n - i) as nat,
                data@,
                p as int,
            ) {
                Some((ms, q)) => Some((models_of(items@) + ms, q)),
                None => None,
            },
        decreases n - i,
    {
        let (v, q) = match decode_at(elem, data, p) {
            Some(x) => x,
            None => return None,
        };
        proof {
            lemma_models_push(items@, v);
            let rest = dec_items(*cty, (n - i - 1) as nat, data@, q as int);
            match rest {
                Some((ms, q2)) => {
                    assert(models_of(items@.push(v)) + ms =~= models_of(items@) + (seq![v@]
                        + ms));
                },
                None => {},
            }
        }
        items.push(v);
        p = q;
        i = i + 1;
    }
    proof {
        assert(models_of(items@) + Seq::<Model>::empty() =~= models_of(items@));
    }
    Some((items, p))
}

fn decode_fields(tys: &Vec<Ty>, data: &Vec<u8>, pos: usize) -> (r: Option<(Vec<Value>, usize)>)
    ensures
        match r {
            Some((vs, q)) => dec_seq(tys@, data@, pos as int) == Some((models_of(vs@), q as int)),
            None => dec_seq(tys@, data@, pos as int) is None,
        },
    decreases tys, 1nat,
{
    let mut items: Vec<Value> = Vec::new();
    let mut p = pos;
    let mut i: usize = 0;
    proof {
        assert(tys@.skip(0) =~= tys@);
        assert(models_of(items@) =~= Seq::<Model>::empty());
        match dec_seq(tys@, data@, pos as int) {
            Some((ms, q)) => {
                assert(models_of(items@) + ms =~= ms);
            },
            None => {},
        }
    }
    while i < tys.len()
        invariant
            i <= tys@.len(),
            dec_seq(tys@, data@, pos as int) == match dec_seq(tys@.skip(i as int), data@, p as int) {
                Some((ms, q)) => Some((models_of(items@) + ms, q)),
                None => None,
            },
        decreases tys@.len() - i,
    {
        proof {
            assert(tys@.skip(i as int)[0] == tys@[i as int]);
            assert(tys@.skip(i as int).drop_first() =~= tys@.skip(i as int + 1));
        }
        let (v, q) = match decode_at(&tys[i], data, p) {
            Some(x) => x,
            None => return None,
        };
        proof {
            lemma_models_push(items@, v);
            let rest = dec_seq(tys@.skip(i as int + 1), data@, q as int);
            match rest {
                Some((ms, q2)) => {
                    assert(models_of(items@.push(v)) + ms =~= models_of(items@) + (seq![v@]
                        + ms));
                },
                None => {},
            }
        }
        items.push(v);
        p = q;
        i = i + 1;
    }
    proof {
        assert(tys@.skip(i as int) =~= Seq::<Ty>::empty());
        assert(models_of(items@) + Seq::<Model>::empty() =~= models_of(items@));
    }
    Some((items, p))
}

/// Decodes a whole buffer holding one value of type `ty`.
pub fn decode(ty: &Ty, data: &Vec<u8>) -> (r: Option<Value>)
    ensures
        match r {
            Some(v) => dec(*ty, data@, 0) == Some((v@, data@.len() as int)),
            None => !(dec(*ty, data@, 0) matches Some((_, q)) && q == data@.len()),
        },
{
    match decode_at(ty, data, 0) {
        Some((v, q)) => if q == data.len() {
            Some(v)
        } else {
            None
        },
        None => None,
    }
}

// ---------------------------------------------------------------------------
// Reading typed values out of a decoded value

pub proof fn lemma_models_index(items: Seq<Value>)
    ensures
        models_of(items).len() == items.len(),
        forall|i: int| 0 <= i < items.len() ==> #[trigger] models_of(items)[i] == model_of(items[i]),
    decreases items.len(),
{
    if items.len() > 0 {
        lemma_models_index(items.drop_first());
        assert forall|i: int| 0 <= i < items.len() implies #[trigger] models_of(items)[i]
            == model_of(items[i]) by {
            if i > 0 {
                assert(items.drop_first()[i - 1] == items[i]);
            }
        }
    }
}

/// The 32-bit unsigned number a value stands for, whatever integer kind
/// carries it.
pub fn as_u32(v: &Value) -> (r: Option<u32>)
    ensures
        r == (if v@ matches Model::Int(x) && 0 <= x <= u32::MAX {
            Some(v@->Int_0 as u32)
        } else {
            None::<u32>
        }),
{
    match v {
        Value::I8(x) => if *x >= 0 { Some(*x as u32) } else { None },
        Value::I16(x) => if *x >= 0 { Some(*x as u32) } else { None },
        Value::I32(x) => if *x >= 0 { Some(*x as u32) } else { None },
        Value::I64(x) => if *x >= 0 && *x <= u32::MAX as i64 { Some(*x as u32) } else { None },
        Value::I128(x) => if *x >= 0 && *x <= u32::MAX as i128 { Some(*x as u32) } else { None },
        Value::Isize(x) => if *x >= 0 && *x as i64 <= u32::MAX as i64 { Some(*x as u32) } else { None },
        Value::U8(x) => Some(*x as u32),
        Value::U16(x) => Some(*x as u32),
        Value::U32(x) => Some(*x),
        Value::U64(x) => if *x <= u32::MAX as u64 { Some(*x as u32) } else { None },
        Value::U128(x) => if *x <= u32::MAX as u128 { Some(*x as u32) } else { None },
        Value::Usize(x) => if *x as u64 <= u32::MAX as u64 { Some(*x as u32) } else { None },
        _ => None,
    }
}

/// Round trip of an enum value, whichever payload shape its variant has
/// (none, positional or named fields, optionals of described types
/// included): the variant index and the payload come back.
pub proof fn lemma_variant_round_trip(v: Value, ty: Ty, rest: Seq<u8>)
    requires
        v is Variant,
        ty is Variant,
        conforms(v, ty),
        encodable(v),
    ensures
        dec(ty, enc(v) + rest, 0) matches Some((Model::Variant(i, ms), n)) && i == v->Variant_0
            && ms == models_of(v->Variant_1@) && n == enc(v).len(),
{
    lemma_round_trip(v, ty, rest);
}

/// What a lossy UTF-8 conversion makes of `b`.
pub uninterp spec fn lossy_utf8(b: Seq<u8>) -> Seq<char>;

/// Relies on `String::from_utf8_lossy`: valid UTF-8 comes back as the text it
/// encodes; other input is converted by the standard library's replacement
/// rules, a function of the bytes alone.
#[verifier::external_body]
fn text_from_utf8_lossy(b: &[u8]) -> (r: String)
    ensures
        r@ == lossy_utf8(b@),
        valid_utf8(b@) ==> r@ == decode_utf8(b@),
{
    String::from_utf8_lossy(b).into_owned()
}

/// Relies on `char::from_u32`: `Some` exactly for Unicode scalar values.
#[verifier::external_body]
fn char_from_u32(n: u32) -> (r: Option<char>)
    ensures
        r == (if is_scalar(n) {
            Some(n as char)
        } else {
            None::<char>
        }),
{
    char::from_u32(n)
}

} // verus!
