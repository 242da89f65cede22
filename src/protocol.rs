//! The wire form of the object exchanged with a guest: a [`LibraryObj`] and
//! the descriptions it carries, as codec values.
use vstd::prelude::*;
use crate::annotate::{LibraryObj, SharedOutputEntry, UserData, UserField, UserInput};
use crate::codec::{
    lemma_models_index, lemma_models_push, models_of, model_of, Model, PrimKind, Ty, Value,
};

verus! {

pub open spec fn text_models(v: Seq<String>) -> Seq<Model> {
    v.map_values(|s: String| Model::Text(s@))
}

pub open spec fn field_models(t: Seq<UserField>) -> Seq<Model> {
    t.map_values(|f: UserField| field_model(f))
}

pub open spec fn input_models(t: Seq<UserInput>) -> Seq<Model> {
    t.map_values(|x: UserInput| input_model(x))
}

pub open spec fn entry_models(t: Seq<SharedOutputEntry>) -> Seq<Model> {
    t.map_values(|e: SharedOutputEntry| entry_model(e))
}

pub open spec fn field_model(f: UserField) -> Model {
    Model::Record(seq![Model::Bool(f.is_public), Model::Text(f.name@), Model::Text(f.ty@)])
}

/// A record of a flag and two texts, the shape of fields and inputs.
pub open spec fn triple_model(b: bool, x: Seq<char>, y: Seq<char>) -> Model {
    Model::Record(seq![Model::Bool(b), Model::Text(x), Model::Text(y)])
}

pub open spec fn input_model(i: UserInput) -> Model {
    Model::Record(seq![Model::Bool(i.is_self), Model::Text(i.name@), Model::Text(i.ty@)])
}

/// A description as a variant: struct, function, module, global variable,
/// match and missing, in this order.
pub open spec fn user_data_model(d: UserData) -> Model {
    match d {
        UserData::Struct { name, is_pub, fields } => Model::Variant(
            0,
            seq![Model::Text(name@), Model::Bool(is_pub), Model::List(field_models(fields@))],
        ),
        UserData::Function { name, is_pub, is_async, inputs, return_ty } => Model::Variant(
            1,
            seq![
                Model::Text(name@),
                Model::Bool(is_pub),
                Model::Bool(is_async),
                Model::List(input_models(inputs@)),
                Model::Text(return_ty@),
            ],
        ),
        UserData::Module { name, is_pub } => Model::Variant(2, seq![Model::Text(name@), Model::Bool(is_pub)]),
        UserData::GlobalVariable { name, is_pub } => Model::Variant(3, seq![Model::Text(name@), Model::Bool(is_pub)]),
        UserData::Match { name, is_pub } => Model::Variant(4, seq![Model::Text(name@), Model::Bool(is_pub)]),
        UserData::Missing => Model::Variant(5, Seq::empty()),
    }
}

pub open spec fn entry_model(e: SharedOutputEntry) -> Model {
    Model::Record(
        seq![
            Model::Text(e.filename@),
            Model::Text(e.label@),
            Model::Text(e.line@),
            Model::Bool(e.unique),
            match e.after {
                Some(a) => Model::Present(Box::new(Model::Text(a@))),
                None => Model::Absent,
            },
        ],
    )
}

/// The object as a record of its fields in declaration order.
pub open spec fn library_model(o: LibraryObj) -> Model {
    Model::Record(
        seq![
            Model::Text(o.compiler_error_message@),
            Model::List(text_models(o.add_code_after@)),
            Model::Text(o.crate_name@),
            user_data_model(o.user_data),
            Model::List(entry_models(o.shared_output_data@)),
        ],
    )
}

fn text_value(s: &String) -> (r: Value)
    ensures
        r@ == Model::Text(s@),
{
    Value::Text(s.clone())
}

fn texts_value(v: &Vec<String>) -> (r: Value)
    ensures
        r@ == Model::List(text_models(v@)),
{
    let mut items: Vec<Value> = Vec::new();
    let mut i: usize = 0;
    while i < v.len()
        invariant
            i <= v@.len(),
            models_of(items@) == text_models(v@.take(i as int)),
        decreases v@.len() - i,
    {
        let x = text_value(&v[i]);
        proof {
            lemma_models_push(items@, x);
            assert(text_models(v@.take(i as int + 1)) =~= text_models(v@.take(i as int)).push(Model::Text(v@[i as int]@)));
        }
        items.push(x);
        i = i + 1;
    }
    proof {
        assert(v@.take(i as int) =~= v@);
    }
    Value::List(items)
}

fn record3(a: Value, b: Value, c: Value) -> (r: Value)
    ensures
        r@ == Model::Record(seq![a@, b@, c@]),
{
    let mut items: Vec<Value> = Vec::new();
    items.push(a);
    items.push(b);
    items.push(c);
    proof {
        lemma_models_index(items@);
        assert(models_of(items@) =~= seq![a@, b@, c@]);
    }
    Value::Record(items)
}

fn field_value(f: &UserField) -> (r: Value)
    ensures
        r@ == field_model(*f),
{
    record3(Value::Bool(f.is_public), text_value(&f.name), text_value(&f.ty))
}

fn input_value(i: &UserInput) -> (r: Value)
    ensures
        r@ == input_model(*i),
{
    record3(Value::Bool(i.is_self), text_value(&i.name), text_value(&i.ty))
}

fn entry_value(e: &SharedOutputEntry) -> (r: Value)
    ensures
        r@ == entry_model(*e),
{
    let after = match &e.after {
        Some(a) => Value::Present(Box::new(text_value(a))),
        None => Value::Absent,
    };
    let mut items: Vec<Value> = Vec::new();
    items.push(text_value(&e.filename));
    items.push(text_value(&e.label));
    items.push(text_value(&e.line));
    items.push(Value::Bool(e.unique));
    items.push(after);
    proof {
        lemma_models_index(items@);
        assert(models_of(items@) =~= entry_model(*e)->Record_0);
    }
    Value::Record(items)
}

fn fields_value(v: &Vec<UserField>) -> (r: Value)
    ensures
        r@ == Model::List(field_models(v@)),
{
    let mut items: Vec<Value> = Vec::new();
    let mut i: usize = 0;
    while i < v.len()
        invariant
            i <= v@.len(),
            models_of(items@) == field_models(v@.take(i as int)),
        decreases v@.len() - i,
    {
        let x = field_value(&v[i]);
        proof {
            lemma_models_push(items@, x);
            assert(field_models(v@.take(i as int + 1)) =~= field_models(v@.take(i as int)).push(field_model(v@[i as int])));
        }
        items.push(x);
        i = i + 1;
    }
    proof {
        assert(v@.take(i as int) =~= v@);
    }
    Value::List(items)
}

fn inputs_value(v: &Vec<UserInput>) -> (r: Value)
    ensures
        r@ == Model::List(input_models(v@)),
{
    let mut items: Vec<Value> = Vec::new();
    let mut i: usize = 0;
    while i < v.len()
        invariant
            i <= v@.len(),
            models_of(items@) == input_models(v@.take(i as int)),
        decreases v@.len() - i,
    {
        let x = input_value(&v[i]);
        proof {
            lemma_models_push(items@, x);
            assert(input_models(v@.take(i as int + 1)) =~= input_models(v@.take(i as int)).push(input_model(v@[i as int])));
        }
        items.push(x);
        i = i + 1;
    }
    proof {
        assert(v@.take(i as int) =~= v@);
    }
    Value::List(items)
}

fn entries_value(v: &Vec<SharedOutputEntry>) -> (r: Value)
    ensures
        r@ == Model::List(entry_models(v@)),
{
    let mut items: Vec<Value> = Vec::new();
    let mut i: usize = 0;
    while i < v.len()
        invariant
            i <= v@.len(),
            models_of(items@) == entry_models(v@.take(i as int)),
        decreases v@.len() - i,
    {
        let x = entry_value(&v[i]);
        proof {
            lemma_models_push(items@, x);
            assert(entry_models(v@.take(i as int + 1)) =~= entry_models(v@.take(i as int)).push(entry_model(v@[i as int])));
        }
        items.push(x);
        i = i + 1;
    }
    proof {
        assert(v@.take(i as int) =~= v@);
    }
    Value::List(items)
}

fn name_flag(index: u32, name: &String, is_pub: bool) -> (r: Value)
    ensures
        r@ == Model::Variant(index as nat, seq![Model::Text(name@), Model::Bool(is_pub)]),
{
    let mut items: Vec<Value> = Vec::new();
    items.push(text_value(name));
    items.push(Value::Bool(is_pub));
    proof {
        lemma_models_index(items@);
        assert(models_of(items@) =~= seq![Model::Text(name@), Model::Bool(is_pub)]);
    }
    Value::Variant(index, items)
}

/// A description as a codec value.
pub fn user_data_value(d: &UserData) -> (r: Value)
    ensures
        r@ == user_data_model(*d),
{
    match d {
        UserData::Struct { name, is_pub, fields } => {
            let mut items: Vec<Value> = Vec::new();
            items.push(text_value(name));
            items.push(Value::Bool(*is_pub));
            items.push(fields_value(fields));
            proof {
                lemma_models_index(items@);
                assert(models_of(items@) =~= user_data_model(*d)->Variant_1);
            }
            Value::Variant(0, items)
        },
        UserData::Function { name, is_pub, is_async, inputs, return_ty } => {
            let mut items: Vec<Value> = Vec::new();
            items.push(text_value(name));
            items.push(Value::Bool(*is_pub));
            items.push(Value::Bool(*is_async));
            items.push(inputs_value(inputs));
            items.push(text_value(return_ty));
            proof {
                lemma_models_index(items@);
                assert(models_of(items@) =~= user_data_model(*d)->Variant_1);
            }
            Value::Variant(1, items)
        },
        UserData::Module { name, is_pub } => name_flag(2, name, *is_pub),
        UserData::GlobalVariable { name, is_pub } => name_flag(3, name, *is_pub),
        UserData::Match { name, is_pub } => name_flag(4, name, *is_pub),
        UserData::Missing => {
            let items: Vec<Value> = Vec::new();
            proof {
                assert(models_of(items@) =~= Seq::<Model>::empty());
            }
            Value::Variant(5, items)
        },
    }
}

impl LibraryObj {
    /// This object as a codec value.
    pub fn to_value(&self) -> (r: Value)
        ensures
            r@ == library_model(*self),
    {
        let mut items: Vec<Value> = Vec::new();
        items.push(text_value(&self.compiler_error_message));
        items.push(texts_value(&self.add_code_after));
        items.push(text_value(&self.crate_name));
        items.push(user_data_value(&self.user_data));
        items.push(entries_value(&self.shared_output_data));
        proof {
            lemma_models_index(items@);
            assert(models_of(items@) =~= library_model(*self)->Record_0);
        }
        Value::Record(items)
    }
}

// ---------------------------------------------------------------------------
// Reading the object back

fn as_text(v: &Value) -> (r: Option<String>)
    ensures
        r matches Some(s) ==> v@ == Model::Text(s@),
        r is None ==> !(v@ is Text),
{
    match v {
        Value::Text(s) => Some(s.clone()),
        _ => None,
    }
}

fn as_bool(v: &Value) -> (r: Option<bool>)
    ensures
        r matches Some(b) ==> v@ == Model::Bool(b),
        r is None ==> !(v@ is Bool),
{
    match v {
        Value::Bool(b) => Some(*b),
        _ => None,
    }
}

fn texts_from(v: &Value) -> (r: Option<Vec<String>>)
    ensures
        r matches Some(t) ==> v@ == Model::List(text_models(t@)),
        r is None ==> forall|t: Seq<String>| v@ != Model::List(#[trigger] text_models(t)),
{
    match v {
        Value::List(items) => {
            proof {
                lemma_models_index(items@);
            }
            let mut out: Vec<String> = Vec::new();
            let mut i: usize = 0;
            while i < items.len()
                invariant
                    i <= items@.len(),
                    v@ == Model::List(models_of(items@)),
                    models_of(items@).len() == items@.len(),
                    forall|j: int| 0 <= j < items@.len() ==> #[trigger] models_of(items@)[j] == model_of(items@[j]),
                    text_models(out@) == models_of(items@).take(i as int),
                decreases items@.len() - i,
            {
                match as_text(&items[i]) {
                    Some(s) => {
                        proof {
                            assert(text_models(out@.push(s)) =~= text_models(out@).push(Model::Text(s@)));
                            assert(models_of(items@).take(i as int + 1) =~= models_of(items@).take(i as int).push(models_of(items@)[i as int]));
                            assert(text_models(out@.push(s)) =~= models_of(items@).take(i as int + 1));
                        }
                        out.push(s);
                    },
                    None => {
                        proof {
                            assert forall|t: Seq<String>| v@ != Model::List(#[trigger] text_models(t)) by {
                                if v@ == Model::List(text_models(t)) {
                                    assert(models_of(items@)[i as int] == text_models(t)[i as int]);
                                }
                            }
                        }
                        return None;
                    },
                }
                i = i + 1;
            }
            proof {
                assert(models_of(items@).take(i as int) =~= models_of(items@));
            }
            Some(out)
        },
        _ => None,
    }
}

fn triple_from(v: &Value) -> (r: Option<(bool, String, String)>)
    ensures
        r matches Some((b, x, y)) ==> v@ == triple_model(b, x@, y@),
        r is None ==> forall|b: bool, x: Seq<char>, y: Seq<char>| v@ != #[trigger] triple_model(b, x, y),
{
    match v {
        Value::Record(items) => {
            proof {
                lemma_models_index(items@);
            }
            if items.len() != 3 {
                return None;
            }
            let b = match as_bool(&items[0]) {
                Some(b) => b,
                None => return None,
            };
            let x = match as_text(&items[1]) {
                Some(x) => x,
                None => return None,
            };
            let y = match as_text(&items[2]) {
                Some(y) => y,
                None => return None,
            };
            proof {
                assert(models_of(items@) =~= seq![Model::Bool(b), Model::Text(x@), Model::Text(y@)]);
            }
            Some((b, x, y))
        },
        _ => None,
    }
}

fn fields_from(v: &Value) -> (r: Option<Vec<UserField>>)
    ensures
        r matches Some(t) ==> v@ == Model::List(field_models(t@)),
        r is None ==> forall|t: Seq<UserField>| v@ != Model::List(#[trigger] field_models(t)),
{
    match v {
        Value::List(items) => {
            proof {
                lemma_models_index(items@);
            }
            let mut out: Vec<UserField> = Vec::new();
            let mut i: usize = 0;
            while i < items.len()
                invariant
                    i <= items@.len(),
                    v@ == Model::List(models_of(items@)),
                    models_of(items@).len() == items@.len(),
                    forall|j: int| 0 <= j < items@.len() ==> #[trigger] models_of(items@)[j] == model_of(items@[j]),
                    field_models(out@) == models_of(items@).take(i as int),
                decreases items@.len() - i,
            {
                match triple_from(&items[i]) {
                    Some((b, x, y)) => {
                        let f = UserField { is_public: b, name: x, ty: y };
                        proof {
                            assert(field_models(out@.push(f)) =~= field_models(out@).push(field_model(f)));
                            assert(models_of(items@).take(i as int + 1) =~= models_of(items@).take(i as int).push(models_of(items@)[i as int]));
                            assert(field_models(out@.push(f)) =~= models_of(items@).take(i as int + 1));
                        }
                        out.push(f);
                    },
                    None => {
                        proof {
                            assert forall|t: Seq<UserField>| v@ != Model::List(#[trigger] field_models(t)) by {
                                if v@ == Model::List(field_models(t)) {
                                    assert(models_of(items@)[i as int] == field_model(t[i as int]));
                                    assert(field_model(t[i as int]) == triple_model(t[i as int].is_public, t[i as int].name@, t[i as int].ty@));
                                }
                            }
                        }
                        return None;
                    },
                }
                i = i + 1;
            }
            proof {
                assert(models_of(items@).take(i as int) =~= models_of(items@));
            }
            Some(out)
        },
        _ => None,
    }
}

fn inputs_from(v: &Value) -> (r: Option<Vec<UserInput>>)
    ensures
        r matches Some(t) ==> v@ == Model::List(input_models(t@)),
        r is None ==> forall|t: Seq<UserInput>| v@ != Model::List(#[trigger] input_models(t)),
{
    match v {
        Value::List(items) => {
            proof {
                lemma_models_index(items@);
            }
            let mut out: Vec<UserInput> = Vec::new();
            let mut i: usize = 0;
            while i < items.len()
                invariant
                    i <= items@.len(),
                    v@ == Model::List(models_of(items@)),
                    models_of(items@).len() == items@.len(),
                    forall|j: int| 0 <= j < items@.len() ==> #[trigger] models_of(items@)[j] == model_of(items@[j]),
                    input_models(out@) == models_of(items@).take(i as int),
                decreases items@.len() - i,
            {
                match triple_from(&items[i]) {
                    Some((b, x, y)) => {
                        let f = UserInput { is_self: b, name: x, ty: y };
                        proof {
                            assert(input_models(out@.push(f)) =~= input_models(out@).push(input_model(f)));
                            assert(models_of(items@).take(i as int + 1) =~= models_of(items@).take(i as int).push(models_of(items@)[i as int]));
                            assert(input_models(out@.push(f)) =~= models_of(items@).take(i as int + 1));
                        }
                        out.push(f);
                    },
                    None => {
                        proof {
                            assert forall|t: Seq<UserInput>| v@ != Model::List(#[trigger] input_models(t)) by {
                                if v@ == Model::List(input_models(t)) {
                                    assert(models_of(items@)[i as int] == input_model(t[i as int]));
                                    assert(input_model(t[i as int]) == triple_model(t[i as int].is_self, t[i as int].name@, t[i as int].ty@));
                                }
                            }
                        }
                        return None;
                    },
                }
                i = i + 1;
            }
            proof {
                assert(models_of(items@).take(i as int) =~= models_of(items@));
            }
            Some(out)
        },
        _ => None,
    }
}

fn entry_from(v: &Value) -> (r: Option<SharedOutputEntry>)
    ensures
        r matches Some(e) ==> v@ == entry_model(e),
        r is None ==> forall|e: SharedOutputEntry| v@ != #[trigger] entry_model(e),
{
    match v {
        Value::Record(items) => {
            proof {
                lemma_models_index(items@);
            }
            if items.len() != 5 {
                return None;
            }
            let filename = match as_text(&items[0]) {
                Some(x) => x,
                None => return None,
            };
            let label = match as_text(&items[1]) {
                Some(x) => x,
                None => return None,
            };
            let line = match as_text(&items[2]) {
                Some(x) => x,
                None => return None,
            };
            let unique = match as_bool(&items[3]) {
                Some(x) => x,
                None => return None,
            };
            let after = match &items[4] {
                Value::Absent => None,
                Value::Present(b) => match as_text(b) {
                    Some(a) => Some(a),
                    None => return None,
                },
                _ => return None,
            };
            let e = SharedOutputEntry { filename, label, line, unique, after };
            proof {
                assert(models_of(items@) =~= entry_model(e)->Record_0);
            }
            Some(e)
        },
        _ => None,
    }
}

fn entries_from(v: &Value) -> (r: Option<Vec<SharedOutputEntry>>)
    ensures
        r matches Some(t) ==> v@ == Model::List(entry_models(t@)),
        r is None ==> forall|t: Seq<SharedOutputEntry>| v@ != Model::List(#[trigger] entry_models(t)),
{
    match v {
        Value::List(items) => {
            proof {
                lemma_models_index(items@);
            }
            let mut out: Vec<SharedOutputEntry> = Vec::new();
            let mut i: usize = 0;
            while i < items.len()
                invariant
                    i <= items@.len(),
                    v@ == Model::List(models_of(items@)),
                    models_of(items@).len() == items@.len(),
                    forall|j: int| 0 <= j < items@.len() ==> #[trigger] models_of(items@)[j] == model_of(items@[j]),
                    entry_models(out@) == models_of(items@).take(i as int),
                decreases items@.len() - i,
            {
                match entry_from(&items[i]) {
                    Some(e) => {
                        proof {
                            assert(entry_models(out@.push(e)) =~= entry_models(out@).push(entry_model(e)));
                            assert(models_of(items@).take(i as int + 1) =~= models_of(items@).take(i as int).push(models_of(items@)[i as int]));
                            assert(entry_models(out@.push(e)) =~= models_of(items@).take(i as int + 1));
                        }
                        out.push(e);
                    },
                    None => {
                        proof {
                            assert forall|t: Seq<SharedOutputEntry>| v@ != Model::List(#[trigger] entry_models(t)) by {
                                if v@ == Model::List(entry_models(t)) {
                                    assert(models_of(items@)[i as int] == entry_model(t[i as int]));
                                }
                            }
                        }
                        return None;
                    },
                }
                i = i + 1;
            }
            proof {
                assert(models_of(items@).take(i as int) =~= models_of(items@));
            }
            Some(out)
        },
        _ => None,
    }
}

/// The description a codec value stands for, if any.
pub fn user_data_from(v: &Value) -> (r: Option<UserData>)
    ensures
        r matches Some(d) ==> v@ == user_data_model(d),
        r is None ==> forall|d: UserData| v@ != #[trigger] user_data_model(d),
{
    match v {
        Value::Variant(i, items) => {
            proof {
                lemma_models_index(items@);
            }
            if *i == 0 && items.len() == 3 {
                let name = match as_text(&items[0]) {
                    Some(x) => x,
                    None => return None,
                };
                let is_pub = match as_bool(&items[1]) {
                    Some(x) => x,
                    None => return None,
                };
                let fields = match fields_from(&items[2]) {
                    Some(x) => x,
                    None => return None,
                };
                let d = UserData::Struct { name, is_pub, fields };
                proof {
                    assert(models_of(items@) =~= user_data_model(d)->Variant_1);
                }
                Some(d)
            } else if *i == 1 && items.len() == 5 {
                let name = match as_text(&items[0]) {
                    Some(x) => x,
                    None => return None,
                };
                let is_pub = match as_bool(&items[1]) {
                    Some(x) => x,
                    None => return None,
                };
                let is_async = match as_bool(&items[2]) {
                    Some(x) => x,
                    None => return None,
                };
                let inputs = match inputs_from(&items[3]) {
                    Some(x) => x,
                    None => return None,
                };
                let return_ty = match as_text(&items[4]) {
                    Some(x) => x,
                    None => return None,
                };
                let d = UserData::Function { name, is_pub, is_async, inputs, return_ty };
                proof {
                    assert(models_of(items@) =~= user_data_model(d)->Variant_1);
                }
                Some(d)
            } else if 2 <= *i && *i <= 4 && items.len() == 2 {
                let name = match as_text(&items[0]) {
                    Some(x) => x,
                    None => return None,
                };
                let is_pub = match as_bool(&items[1]) {
                    Some(x) => x,
                    None => return None,
                };
                let d = if *i == 2 {
                    UserData::Module { name, is_pub }
                } else if *i == 3 {
                    UserData::GlobalVariable { name, is_pub }
                } else {
                    UserData::Match { name, is_pub }
                };
                proof {
                    assert(models_of(items@) =~= user_data_model(d)->Variant_1);
                }
                Some(d)
            } else if *i == 5 && items.len() == 0 {
                proof {
                    assert(models_of(items@) =~= Seq::<Model>::empty());
                }
                Some(UserData::Missing)
            } else {
                None
            }
        },
        _ => None,
    }
}

impl LibraryObj {
    /// The object a codec value stands for, if any.
    pub fn from_value(v: &Value) -> (r: Option<LibraryObj>)
        ensures
            r matches Some(o) ==> v@ == library_model(o),
            r is None ==> forall|o: LibraryObj| v@ != #[trigger] library_model(o),
    {
        match v {
            Value::Record(items) => {
                proof {
                    lemma_models_index(items@);
                }
                if items.len() != 5 {
                    return None;
                }
                let compiler_error_message = match as_text(&items[0]) {
                    Some(x) => x,
                    None => return None,
                };
                let add_code_after = match texts_from(&items[1]) {
                    Some(x) => x,
                    None => return None,
                };
                let crate_name = match as_text(&items[2]) {
                    Some(x) => x,
                    None => return None,
                };
                let user_data = match user_data_from(&items[3]) {
                    Some(x) => x,
                    None => return None,
                };
                let shared_output_data = match entries_from(&items[4]) {
                    Some(x) => x,
                    None => return None,
                };
                let o = LibraryObj { compiler_error_message, add_code_after, crate_name, user_data, shared_output_data };
                proof {
                    assert(models_of(items@) =~= library_model(o)->Record_0);
                }
                Some(o)
            },
            _ => None,
        }
    }
}

// ---------------------------------------------------------------------------
// The descriptor

pub open spec fn text_ty() -> Ty {
    Ty::Prim(PrimKind::Text)
}

pub open spec fn bool_ty() -> Ty {
    Ty::Prim(PrimKind::Bool)
}

/// `ty` is a record of a flag and two texts.
pub open spec fn is_triple_ty(ty: Ty) -> bool {
    ty matches Ty::Record(f) && f@ == seq![bool_ty(), text_ty(), text_ty()]
}

/// `ty` describes [`UserData`].
pub open spec fn is_user_data_ty(ty: Ty) -> bool {
    &&& ty matches Ty::Variant(vs)
    &&& vs@.len() == 6
    &&& vs@[0]@.len() == 3
    &&& vs@[0]@[0] == text_ty()
    &&& vs@[0]@[1] == bool_ty()
    &&& vs@[0]@[2] is Sequence
    &&& is_triple_ty(*vs@[0]@[2]->Sequence_0)
    &&& vs@[1]@.len() == 5
    &&& vs@[1]@[0] == text_ty()
    &&& vs@[1]@[1] == bool_ty()
    &&& vs@[1]@[2] == bool_ty()
    &&& vs@[1]@[4] == text_ty()
    &&& vs@[1]@[3] is Sequence
    &&& is_triple_ty(*vs@[1]@[3]->Sequence_0)
    &&& vs@[2]@ == seq![text_ty(), bool_ty()]
    &&& vs@[3]@ == seq![text_ty(), bool_ty()]
    &&& vs@[4]@ == seq![text_ty(), bool_ty()]
    &&& vs@[5]@.len() == 0
}

/// `ty` describes [`SharedOutputEntry`].
pub open spec fn is_entry_ty(ty: Ty) -> bool {
    ty matches Ty::Record(f) && f@ == seq![text_ty(), text_ty(), text_ty(), bool_ty(), Ty::Optional(Box::new(text_ty()))]
}

/// `ty` describes [`LibraryObj`].
pub open spec fn is_library_ty(ty: Ty) -> bool {
    &&& ty matches Ty::Record(f)
    &&& f@.len() == 5
    &&& f@[0] == text_ty()
    &&& f@[1] == Ty::Sequence(Box::new(text_ty()))
    &&& f@[2] == text_ty()
    &&& is_user_data_ty(f@[3])
    &&& f@[4] is Sequence
    &&& is_entry_ty(*f@[4]->Sequence_0)
}

fn triple_ty() -> (r: Ty)
    ensures
        is_triple_ty(r),
{
    let mut f: Vec<Ty> = Vec::new();
    f.push(Ty::Prim(PrimKind::Bool));
    f.push(Ty::Prim(PrimKind::Text));
    f.push(Ty::Prim(PrimKind::Text));
    proof {
        assert(f@ =~= seq![bool_ty(), text_ty(), text_ty()]);
    }
    Ty::Record(f)
}

fn name_flag_ty() -> (r: Vec<Ty>)
    ensures
        r@ == seq![text_ty(), bool_ty()],
{
    let mut f: Vec<Ty> = Vec::new();
    f.push(Ty::Prim(PrimKind::Text));
    f.push(Ty::Prim(PrimKind::Bool));
    proof {
        assert(f@ =~= seq![text_ty(), bool_ty()]);
    }
    f
}

/// The descriptor of [`UserData`].
pub fn user_data_ty() -> (r: Ty)
    ensures
        is_user_data_ty(r),
{
    let mut s: Vec<Ty> = Vec::new();
    s.push(Ty::Prim(PrimKind::Text));
    s.push(Ty::Prim(PrimKind::Bool));
    s.push(Ty::Sequence(Box::new(triple_ty())));
    let mut f: Vec<Ty> = Vec::new();
    f.push(Ty::Prim(PrimKind::Text));
    f.push(Ty::Prim(PrimKind::Bool));
    f.push(Ty::Prim(PrimKind::Bool));
    f.push(Ty::Sequence(Box::new(triple_ty())));
    f.push(Ty::Prim(PrimKind::Text));
    let mut vs: Vec<Vec<Ty>> = Vec::new();
    vs.push(s);
    vs.push(f);
    vs.push(name_flag_ty());
    vs.push(name_flag_ty());
    vs.push(name_flag_ty());
    vs.push(Vec::new());
    Ty::Variant(vs)
}

/// The descriptor of [`LibraryObj`].
pub fn library_ty() -> (r: Ty)
    ensures
        is_library_ty(r),
{
    let mut e: Vec<Ty> = Vec::new();
    e.push(Ty::Prim(PrimKind::Text));
    e.push(Ty::Prim(PrimKind::Text));
    e.push(Ty::Prim(PrimKind::Text));
    e.push(Ty::Prim(PrimKind::Bool));
    e.push(Ty::Optional(Box::new(Ty::Prim(PrimKind::Text))));
    proof {
        assert(e@ =~= seq![text_ty(), text_ty(), text_ty(), bool_ty(), Ty::Optional(Box::new(text_ty()))]);
    }
    let mut f: Vec<Ty> = Vec::new();
    f.push(Ty::Prim(PrimKind::Text));
    f.push(Ty::Sequence(Box::new(Ty::Prim(PrimKind::Text))));
    f.push(Ty::Prim(PrimKind::Text));
    f.push(user_data_ty());
    f.push(Ty::Sequence(Box::new(Ty::Record(e))));
    Ty::Record(f)
}

impl LibraryObj {
    /// The encoding of this object, unless it reaches `2^32 - 1` bytes.
    pub fn to_binary_slice(&self) -> (r: Option<Vec<u8>>)
        ensures
            exists|v: Value|
                {
                    &&& v@ == library_model(*self)
                    &&& r is Some <==> crate::codec::encodable(v)
                    &&& r matches Some(b) ==> b@ == crate::codec::enc(v)
                },
    {
        let v = self.to_value();
        crate::codec::try_encode(&v)
    }

    /// The object a whole buffer encodes, if it encodes one, read with a
    /// descriptor of [`LibraryObj`].
    pub fn from_binary_slice(data: &Vec<u8>) -> (r: Option<LibraryObj>)
        ensures
            exists|ty: Ty|
                {
                    &&& is_library_ty(ty)
                    &&& r matches Some(o) ==> crate::codec::dec(ty, data@, 0) == Some(
                        (library_model(o), data@.len() as int),
                    )
                    &&& r is None ==> forall|o: LibraryObj|
                        #![trigger library_model(o)]
                        crate::codec::dec(ty, data@, 0) != Some(
                            (library_model(o), data@.len() as int),
                        )
                },
    {
        let ty = library_ty();
        match crate::codec::decode(&ty, data) {
            Some(v) => {
                let r = LibraryObj::from_value(&v);
                proof {
                    assert(is_library_ty(ty));
                }
                r
            },
            None => {
                proof {
                    assert(is_library_ty(ty));
                }
                None
            },
        }
    }
}

} // verus!
