//! The sample host and guest types that travel through the codec: a record
//! handed to a guest and changed there, and a guest module's own export.
use vstd::prelude::*;
use vstd::utf8::encode_utf8;
use crate::annotate::LibraryObj;
use crate::codec::{
    absent_marker, as_u32, dec, decode, enc, encode, framed, lemma_models_index,
    lemma_round_trip, number, Model, PrimKind, Ty, Value,
};

verus! {

/// A record passed from a host program to its guest.
pub struct Thing {
    pub s: String,
    pub q: u32,
    pub opt: Option<u32>,
}

/// A struct carrying a guest annotation in a host crate.
pub struct Something {
    pub a: u64,
}

/// The type a sample guest module exports to the closure it calls.
pub struct MyStruct {
    pub apples: u32,
}

/// `ty` describes a [`Thing`]: text, a 32-bit unsigned integer and an
/// optional 32-bit unsigned integer, in this order.
pub open spec fn is_thing_ty(ty: Ty) -> bool {
    &&& ty matches Ty::Record(tys)
    &&& tys@.len() == 3
    &&& tys@[0] == Ty::Prim(PrimKind::Text)
    &&& tys@[1] == Ty::Prim(PrimKind::U32)
    &&& tys@[2] == Ty::Optional(Box::new(Ty::Prim(PrimKind::U32)))
}

/// `v` is the value, wire form and type of `t`'s optional field.
spec fn third_field_matches(v: Value, t: Thing) -> bool {
    &&& v@ == t.model()->Record_0[2]
    &&& crate::codec::conforms(v, Ty::Optional(Box::new(Ty::Prim(PrimKind::U32))))
    &&& enc(v) == match t.opt {
        Some(x) => number(x as nat, 4),
        None => absent_marker(),
    }
}

impl Thing {
    pub open spec fn model(self) -> Model {
        Model::Record(
            seq![
                Model::Text(self.s@),
                Model::Int(self.q as int),
                match self.opt {
                    Some(x) => Model::Present(Box::new(Model::Int(x as int))),
                    None => Model::Absent,
                },
            ],
        )
    }

    /// The wire form of a [`Thing`]: its three fields in order, framed.
    pub open spec fn wire(self) -> Seq<u8> {
        framed(
            framed(encode_utf8(self.s@)) + number(self.q as nat, 4) + match self.opt {
                Some(x) => number(x as nat, 4),
                None => absent_marker(),
            },
        )
    }

    pub fn descriptor() -> (r: Ty)
        ensures
            is_thing_ty(r),
    {
        let mut tys: Vec<Ty> = Vec::new();
        tys.push(Ty::Prim(PrimKind::Text));
        tys.push(Ty::Prim(PrimKind::U32));
        tys.push(Ty::Optional(Box::new(Ty::Prim(PrimKind::U32))));
        Ty::Record(tys)
    }

    pub fn to_value(&self) -> (r: Value)
        ensures
            r@ == self.model(),
            enc(r) == self.wire(),
            forall|ty: Ty| is_thing_ty(ty) ==> crate::codec::conforms(r, ty),
    {
        let mut items: Vec<Value> = Vec::new();
        items.push(Value::Text(self.s.clone()));
        items.push(Value::U32(self.q));
        let third = match self.opt {
            Some(x) => Value::Present(Box::new(Value::U32(x))),
            None => Value::Absent,
        };
        proof {
            reveal_with_fuel(crate::codec::enc, 2);
            reveal_with_fuel(crate::codec::model_of, 2);
            reveal_with_fuel(crate::codec::conforms, 2);
            assert(third_field_matches(third, *self));
        }
        items.push(third);
        let r = Value::Record(items);
        proof {
            let s0 = items@;
            let s1 = s0.drop_first();
            let s2 = s1.drop_first();
            let s3 = s2.drop_first();
            assert(s1[0] == s0[1]);
            assert(s2[0] == s0[2]);
            assert(s3 =~= Seq::<Value>::empty());
            assert(crate::codec::enc_all(s3) =~= Seq::<u8>::empty());
            assert(crate::codec::enc_all(s2) =~= enc(s0[2]));
            assert(crate::codec::enc_all(s1) =~= enc(s0[1]) + enc(s0[2]));
            assert(crate::codec::enc_all(s0) =~= enc(s0[0]) + enc(s0[1]) + enc(s0[2]));
            lemma_models_index(s0);
            assert(crate::codec::models_of(s0) =~= self.model()->Record_0);
            assert(enc(r) =~= self.wire());
            assert forall|ty: Ty| is_thing_ty(ty) implies crate::codec::conforms(r, ty) by {
                let tys = ty->Record_0@;
                assert(tys.drop_first()[0] == tys[1]);
                assert(tys.drop_first().drop_first()[0] == tys[2]);
                assert(tys.drop_first().drop_first().drop_first() =~= Seq::<Ty>::empty());
                let t1 = tys.drop_first();
                let t2 = t1.drop_first();
                assert(crate::codec::each_conforms(s3, t2.drop_first()));
                assert(crate::codec::conforms(s0[2], tys[2]));
                assert(crate::codec::each_conforms(s2, t2));
                assert(crate::codec::conforms(s0[1], tys[1]));
                assert(crate::codec::conforms(s0[0], tys[0]));
                assert(crate::codec::each_conforms(s1, t1));
                assert(crate::codec::each_conforms(s0, tys));
            }
        }
        r
    }

    /// The [`Thing`] whose model is `v@`, if there is one.
    pub fn from_value(v: Value) -> (r: Option<Thing>)
        ensures
            r matches Some(t) ==> t.model() == v@,
            r is None ==> forall|t: Thing| t.model() != v@,
    {
        match v {
            Value::Record(items) => {
                proof {
                    lemma_models_index(items@);
                }
                if items.len() != 3 {
                    return None;
                }
                let q = match as_u32(&items[1]) {
                    Some(q) => q,
                    None => return None,
                };
                let opt = match &items[2] {
                    Value::Absent => None,
                    Value::Present(b) => match as_u32(b) {
                        Some(x) => Some(x),
                        None => return None,
                    },
                    _ => return None,
                };
                let s = match &items[0] {
                    Value::Text(s) => s.clone(),
                    _ => return None,
                };
                let t = Thing { s, q, opt };
                proof {
                    assert(crate::codec::models_of(items@) =~= t.model()->Record_0);
                }
                Some(t)
            },
            _ => None,
        }
    }

    /// The encoding of this record.
    pub fn to_binary_slice(&self) -> (r: Vec<u8>)
        requires
            self.wire().len() < 0xffff_ffff,
        ensures
            r@ == self.wire(),
            forall|ty: Ty| is_thing_ty(ty) ==> dec(ty, r@, 0) == Some((self.model(), r@.len() as int)),
    {
        let v = self.to_value();
        let r = encode(&v);
        proof {
            assert forall|ty: Ty| is_thing_ty(ty) implies dec(ty, r@, 0) == Some(
                (self.model(), r@.len() as int),
            ) by {
                lemma_round_trip(v, ty, Seq::empty());
                assert(enc(v) + Seq::<u8>::empty() =~= r@);
            }
        }
        r
    }

    /// The record a whole buffer holds, if it holds one.
    pub fn from_binary_slice(data: Vec<u8>) -> (r: Option<Thing>)
        ensures
            r matches Some(t) ==> forall|ty: Ty| is_thing_ty(ty) ==> dec(ty, data@, 0) == Some(
                (t.model(), data@.len() as int),
            ),
            r is None ==> forall|ty: Ty, t: Thing| is_thing_ty(ty) ==> dec(ty, data@, 0) != Some(
                (t.model(), data@.len() as int),
            ),
    {
        let ty = Thing::descriptor();
        proof {
            assert forall|ty2: Ty| is_thing_ty(ty2) implies dec(ty2, data@, 0) == dec(ty, data@, 0) by {
                assert(ty2->Record_0@ == ty->Record_0@);
            }
        }
        match decode(&ty, &data) {
            Some(v) => Thing::from_value(v),
            None => None,
        }
    }
}

/// The sample guest computation: replaces the record's text.
pub fn wasm_main(mything: &mut Thing)
    ensures
        final(mything).s@ == "message from wasm!"@,
        final(mything).q == old(mything).q,
        final(mything).opt == old(mything).opt,
{
    mything.s = "message from wasm!".to_owned();
}

/// The sample guest entry point: hands a fresh [`MyStruct`] with two apples
/// to the user's closure and reports a compile error when the closure left
/// any other number of apples.
pub fn wasm_entrypoint<F: Fn(MyStruct) -> MyStruct>(obj: &mut LibraryObj, cb: F)
    requires
        call_requires(cb, (MyStruct { apples: 2 },)),
    ensures
        exists|out: MyStruct|
            {
                &&& call_ensures(cb, (MyStruct { apples: 2 },), out)
                &&& out.apples != 2 ==> final(obj).compiler_error_message@ == "apples must be 2"@
                &&& out.apples == 2 ==> final(obj).compiler_error_message == old(
                    obj,
                ).compiler_error_message
            },
        final(obj).add_code_after == old(obj).add_code_after,
        final(obj).user_data == old(obj).user_data,
        final(obj).shared_output_data == old(obj).shared_output_data,
        final(obj).crate_name == old(obj).crate_name,
{
    let mystuff = cb(MyStruct { apples: 2 });
    if mystuff.apples != 2 {
        obj.report_error("apples must be 2");
    }
}

} // verus!
