//! The self-contained text bundle of a described type: its own definition
//! followed by the definition of every other described type it reaches,
//! each exactly once.
use vstd::prelude::*;
use vstd::set_lib::{lemma_int_range, lemma_len_subset, set_int_range};
use crate::codec::PrimKind;
use crate::text::views;

verus! {

/// A field type as written in a definition. Built-in kinds are supplied by
/// the codec everywhere; a `Named` type is foreign and must travel with the
/// bundle.
pub enum TypeRef {
    Prim(PrimKind),
    Optional(Box<TypeRef>),
    Sequence(Box<TypeRef>),
    FixedArray(Box<TypeRef>, u32),
    Either(Box<TypeRef>, Box<TypeRef>),
    Mapping(Box<TypeRef>, Box<TypeRef>),
    Named(String),
}

/// A described type: its name, its source text and the types of its fields
/// (of every variant, for an enum) in declaration order.
pub struct TypeDef {
    pub name: String,
    pub source: String,
    pub field_types: Vec<TypeRef>,
}

/// Why a bundle could not be made.
#[derive(Debug)]
pub enum BundleError {
    /// A field refers to a type that has no description.
    UnknownType(String),
}

/// The foreign type names a field type mentions, in order of appearance.
pub open spec fn refs(t: TypeRef) -> Seq<Seq<char>>
    decreases t,
{
    match t {
        TypeRef::Prim(_) => Seq::empty(),
        TypeRef::Optional(b) => refs(*b),
        TypeRef::Sequence(b) => refs(*b),
        TypeRef::FixedArray(b, _) => refs(*b),
        TypeRef::Either(a, b) => refs(*a) + refs(*b),
        TypeRef::Mapping(a, b) => refs(*a) + refs(*b),
        TypeRef::Named(n) => seq![n@],
    }
}

pub open spec fn refs_all(ts: Seq<TypeRef>) -> Seq<Seq<char>>
    decreases ts,
{
    if ts.len() == 0 {
        Seq::empty()
    } else {
        refs(ts[0]) + refs_all(ts.drop_first())
    }
}

/// The foreign type names a definition mentions.
pub open spec fn def_refs(d: TypeDef) -> Seq<Seq<char>> {
    refs_all(d.field_types@)
}

/// `n` is the root's name or the name of a definition in `order`.
pub open spec fn covered(root: TypeDef, registry: Seq<TypeDef>, order: Seq<usize>, n: Seq<char>) -> bool {
    n == root.name@ || exists|k: int| 0 <= k < order.len() && registry[order[k] as int].name@ == n
}

/// The definitions in `order` are registered ones, with pairwise distinct
/// names that all differ from the root's.
pub open spec fn distinct_defs(root: TypeDef, registry: Seq<TypeDef>, order: Seq<usize>) -> bool {
    &&& forall|k: int| 0 <= k < order.len() ==> order[k] < registry.len()
    &&& forall|k: int| 0 <= k < order.len() ==> registry[order[k] as int].name@ != root.name@
    &&& forall|j: int, k: int|
        0 <= j < k < order.len() ==> registry[order[j] as int].name@ != registry[order[k] as int].name@
}

/// `n` is mentioned by the root or by a definition in `order`.
pub open spec fn mentioned(root: TypeDef, registry: Seq<TypeDef>, order: Seq<usize>, n: Seq<char>) -> bool {
    def_refs(root).contains(n) || exists|k: int| 0 <= k < order.len() && def_refs(registry[order[k] as int]).contains(n)
}

/// Each definition in `order` is mentioned by the root or by a definition
/// before it: all of them are reached from the root.
pub open spec fn reached(root: TypeDef, registry: Seq<TypeDef>, order: Seq<usize>) -> bool {
    forall|k: int| 0 <= k < order.len() ==> #[trigger] mentioned(root, registry, order.take(k), registry[order[k] as int].name@)
}

/// Every name the root or a definition in `order` mentions is covered.
pub open spec fn closed(root: TypeDef, registry: Seq<TypeDef>, order: Seq<usize>) -> bool {
    &&& forall|i: int| 0 <= i < def_refs(root).len() ==> covered(root, registry, order, def_refs(root)[i])
    &&& forall|k: int, i: int|
        0 <= k < order.len() && 0 <= i < def_refs(registry[order[k] as int]).len() ==> covered(
            root,
            registry,
            order,
            def_refs(registry[order[k] as int])[i],
        )
}

/// The bundle text of `root` with the definitions in `order`.
pub open spec fn bundle_text(root: TypeDef, registry: Seq<TypeDef>, order: Seq<usize>) -> Seq<char>
    decreases order.len(),
{
    if order.len() == 0 {
        root.source@
    } else {
        bundle_text(root, registry, order.drop_last()) + "\n"@ + registry[order.last() as int].source@
    }
}

fn collect_refs(t: &TypeRef, out: &mut Vec<String>)
    ensures
        views(final(out)@) == views(old(out)@) + refs(*t),
    decreases t,
{
    match t {
        TypeRef::Prim(_) => {
            assert(views(out@) =~= views(out@) + refs(*t));
        },
        TypeRef::Optional(b) => collect_refs(b, out),
        TypeRef::Sequence(b) => collect_refs(b, out),
        TypeRef::FixedArray(b, _) => collect_refs(b, out),
        TypeRef::Either(a, b) => {
            let ghost start = views(out@);
            collect_refs(a, out);
            collect_refs(b, out);
            assert(views(out@) =~= start + refs(*t));
        },
        TypeRef::Mapping(a, b) => {
            let ghost start = views(out@);
            collect_refs(a, out);
            collect_refs(b, out);
            assert(views(out@) =~= start + refs(*t));
        },
        TypeRef::Named(n) => {
            let ghost start = views(out@);
            out.push(n.clone());
            assert(views(out@) =~= start + refs(*t));
        },
    }
}

proof fn lemma_refs_all_take(ts: Seq<TypeRef>, i: int)
    requires
        0 <= i < ts.len(),
    ensures
        refs_all(ts.take(i + 1)) == refs_all(ts.take(i)) + refs(ts[i]),
    decreases i,
{
    if i == 0 {
        assert(ts.take(1).drop_first() =~= Seq::<TypeRef>::empty());
        assert(refs_all(Seq::<TypeRef>::empty()) =~= Seq::<Seq<char>>::empty());
        assert(ts.take(1)[0] == ts[0]);
        assert(refs_all(ts.take(0)) =~= Seq::<Seq<char>>::empty());
        assert(refs_all(ts.take(1)) =~= refs(ts[0]));
    } else {
        lemma_refs_all_take(ts.drop_first(), i - 1);
        assert(ts.take(i + 1).drop_first() =~= ts.drop_first().take(i));
        assert(ts.take(i).drop_first() =~= ts.drop_first().take(i - 1));
        assert(refs_all(ts.take(i + 1)) =~= refs_all(ts.take(i)) + refs(ts[i]));
    }
}

/// The foreign type names a definition mentions, in order.
pub fn mentioned_types(d: &TypeDef) -> (r: Vec<String>)
    ensures
        views(r@) == def_refs(*d),
{
    let mut out: Vec<String> = Vec::new();
    let mut i: usize = 0;
    while i < d.field_types.len()
        invariant
            i <= d.field_types@.len(),
            views(out@) == refs_all(d.field_types@.take(i as int)),
        decreases d.field_types@.len() - i,
    {
        proof {
            lemma_refs_all_take(d.field_types@, i as int);
        }
        collect_refs(&d.field_types[i], &mut out);
        i = i + 1;
    }
    proof {
        assert(d.field_types@.take(i as int) =~= d.field_types@);
    }
    out
}

/// The index of the first registered definition named `name`.
fn find_def(registry: &Vec<TypeDef>, name: &String) -> (r: Option<usize>)
    ensures
        r matches Some(i) ==> i < registry@.len() && registry@[i as int].name@ == name@,
        r is None ==> forall|k: int| 0 <= k < registry@.len() ==> registry@[k].name@ != name@,
{
    let mut i: usize = 0;
    while i < registry.len()
        invariant
            i <= registry@.len(),
            forall|k: int| 0 <= k < i ==> registry@[k].name@ != name@,
        decreases registry@.len() - i,
    {
        if registry[i].name == *name {
            return Some(i);
        }
        i = i + 1;
    }
    None
}

/// Whether `name` is the root's or that of a definition in `order`.
fn is_covered(root: &TypeDef, registry: &Vec<TypeDef>, order: &Vec<usize>, name: &String) -> (r: bool)
    requires
        forall|k: int| 0 <= k < order@.len() ==> order@[k] < registry@.len(),
    ensures
        r == covered(*root, registry@, order@, name@),
{
    if root.name == *name {
        return true;
    }
    let mut k: usize = 0;
    while k < order.len()
        invariant
            k <= order@.len(),
            forall|k: int| 0 <= k < order@.len() ==> order@[k] < registry@.len(),
            forall|j: int| 0 <= j < k ==> registry@[order@[j] as int].name@ != name@,
        decreases order@.len() - k,
    {
        if registry[order[k]].name == *name {
            return true;
        }
        k = k + 1;
    }
    false
}

proof fn lemma_order_bound(registry: Seq<TypeDef>, order: Seq<usize>)
    requires
        forall|k: int| 0 <= k < order.len() ==> order[k] < registry.len(),
        forall|j: int, k: int|
            0 <= j < k < order.len() ==> registry[order[j] as int].name@ != registry[order[k] as int].name@,
    ensures
        order.len() <= registry.len(),
{
    let s = order.map_values(|x: usize| x as int);
    assert forall|j: int, k: int| 0 <= j < s.len() && 0 <= k < s.len() && j != k implies s[j]
        != s[k] by {
        if j < k {
            assert(registry[order[j] as int].name@ != registry[order[k] as int].name@);
        } else {
            assert(registry[order[k] as int].name@ != registry[order[j] as int].name@);
        }
    }
    assert(s.no_duplicates());
    s.unique_seq_to_set();
    lemma_int_range(0, registry.len() as int);
    assert(s.to_set().subset_of(set_int_range(0, registry.len() as int)));
    lemma_len_subset(s.to_set(), set_int_range(0, registry.len() as int));
}

/// The definitions `root` reaches through its fields, transitively, in the
/// order they are first met: each is named once, none is the root, and
/// every name the root or any of them mentions is the root's or one of
/// theirs. Fails with the first mentioned name that has no definition.
pub fn bundle_order(root: &TypeDef, registry: &Vec<TypeDef>) -> (r: Result<Vec<usize>, BundleError>)
    ensures
        r matches Ok(order) ==> distinct_defs(*root, registry@, order@) && closed(*root, registry@, order@)
            && reached(*root, registry@, order@),
        r matches Err(BundleError::UnknownType(n)) ==> (forall|k: int|
            0 <= k < registry@.len() ==> registry@[k].name@ != n@) && exists|order: Seq<usize>|
            reached(*root, registry@, order) && mentioned(*root, registry@, order, n@),
{
    let mut order: Vec<usize> = Vec::new();
    let root_refs = mentioned_types(root);
    let mut i: usize = 0;
    while i < root_refs.len()
        invariant
            i <= root_refs@.len(),
            views(root_refs@) == def_refs(*root),
            distinct_defs(*root, registry@, order@),
            reached(*root, registry@, order@),
            forall|j: int| 0 <= j < i ==> covered(*root, registry@, order@, def_refs(*root)[j]),
        decreases root_refs@.len() - i,
    {
        proof {
            assert(views(root_refs@)[i as int] == root_refs@[i as int]@);
        }
        if !is_covered(root, registry, &order, &root_refs[i]) {
            match find_def(registry, &root_refs[i]) {
                Some(d) => {
                    let ghost before = order@;
                    order.push(d);
                    proof {
                        assert forall|j: int| 0 <= j < i implies covered(*root, registry@, order@, def_refs(*root)[j]) by {
                            if def_refs(*root)[j] != root.name@ {
                                let k = choose|k: int| 0 <= k < before.len() && registry@[before[k] as int].name@ == def_refs(*root)[j];
                                assert(order@[k] == before[k]);
                            }
                        }
                        assert(registry@[order@[before.len() as int] as int].name@ == def_refs(*root)[i as int]);
                        assert forall|k: int| 0 <= k < order@.len() implies #[trigger] mentioned(*root, registry@, order@.take(k), registry@[order@[k] as int].name@) by {
                            if k < before.len() {
                                assert(order@.take(k) =~= before.take(k));
                                assert(order@[k] == before[k]);
                            } else {
                                assert(def_refs(*root)[i as int] == registry@[order@[k] as int].name@);
                            }
                        }
                    }
                },
                None => {
                    proof {
                        assert(def_refs(*root)[i as int] == root_refs@[i as int]@);
                        assert(mentioned(*root, registry@, order@, root_refs@[i as int]@));
                    }
                    return Err(BundleError::UnknownType(root_refs[i].clone()));
                },
            }
        }
        i = i + 1;
    }
    let mut c: usize = 0;
    while c < order.len()
        invariant
            c <= order@.len(),
            distinct_defs(*root, registry@, order@),
            reached(*root, registry@, order@),
            forall|j: int| 0 <= j < def_refs(*root).len() ==> covered(*root, registry@, order@, def_refs(*root)[j]),
            forall|k: int, j: int|
                0 <= k < c && 0 <= j < def_refs(registry@[order@[k] as int]).len() ==> covered(
                    *root,
                    registry@,
                    order@,
                    def_refs(registry@[order@[k] as int])[j],
                ),
        decreases registry@.len() - c,
    {
        proof {
            lemma_order_bound(registry@, order@);
        }
        let refs_c = mentioned_types(&registry[order[c]]);
        let ghost dc = registry@[order@[c as int] as int];
        let mut i: usize = 0;
        while i < refs_c.len()
            invariant
                c < order@.len(),
                i <= refs_c@.len(),
                dc == registry@[order@[c as int] as int],
                views(refs_c@) == def_refs(dc),
                distinct_defs(*root, registry@, order@),
                reached(*root, registry@, order@),
                forall|j: int| 0 <= j < def_refs(*root).len() ==> covered(*root, registry@, order@, def_refs(*root)[j]),
                forall|k: int, j: int|
                    0 <= k < c && 0 <= j < def_refs(registry@[order@[k] as int]).len() ==> covered(
                        *root,
                        registry@,
                        order@,
                        def_refs(registry@[order@[k] as int])[j],
                    ),
                forall|j: int| 0 <= j < i ==> covered(*root, registry@, order@, def_refs(dc)[j]),
            decreases refs_c@.len() - i,
        {
            proof {
                assert(views(refs_c@)[i as int] == refs_c@[i as int]@);
            }
            if !is_covered(root, registry, &order, &refs_c[i]) {
                match find_def(registry, &refs_c[i]) {
                    Some(d) => {
                        let ghost before = order@;
                        order.push(d);
                        proof {
                            assert forall|n: Seq<char>| covered(*root, registry@, before, n) implies covered(*root, registry@, order@, n) by {
                                if n != root.name@ {
                                    let k = choose|k: int| 0 <= k < before.len() && registry@[before[k] as int].name@ == n;
                                    assert(order@[k] == before[k]);
                                }
                            }
                            assert(registry@[order@[before.len() as int] as int].name@ == def_refs(dc)[i as int]);
                            assert forall|k: int| 0 <= k < c implies order@[k] == before[k] by {}
                            assert forall|k: int| 0 <= k < order@.len() implies #[trigger] mentioned(*root, registry@, order@.take(k), registry@[order@[k] as int].name@) by {
                                if k < before.len() {
                                    assert(order@.take(k) =~= before.take(k));
                                    assert(order@[k] == before[k]);
                                } else {
                                    assert(order@.take(k)[c as int] == order@[c as int]);
                                    assert(def_refs(dc)[i as int] == registry@[order@[k] as int].name@);
                                    assert(def_refs(registry@[order@.take(k)[c as int] as int]).contains(def_refs(dc)[i as int]));
                                }
                            }
                        }
                    },
                    None => {
                        proof {
                            assert(def_refs(dc)[i as int] == refs_c@[i as int]@);
                            assert(def_refs(registry@[order@[c as int] as int]).contains(refs_c@[i as int]@));
                            assert(mentioned(*root, registry@, order@, refs_c@[i as int]@));
                        }
                        return Err(BundleError::UnknownType(refs_c[i].clone()));
                    },
                }
            }
            i = i + 1;
        }
        c = c + 1;
    }
    Ok(order)
}

/// The bundle of `root`: its own source, then, each on a new line, the
/// source of every definition it reaches, each exactly once.
pub fn bundle(root: &TypeDef, registry: &Vec<TypeDef>) -> (r: Result<String, BundleError>)
    ensures
        r matches Ok(text) ==> exists|order: Seq<usize>|
            distinct_defs(*root, registry@, order) && closed(*root, registry@, order) && reached(
                *root,
                registry@,
                order,
            ) && text@ == bundle_text(*root, registry@, order),
        r matches Err(BundleError::UnknownType(n)) ==> (forall|k: int|
            0 <= k < registry@.len() ==> registry@[k].name@ != n@) && exists|order: Seq<usize>|
            reached(*root, registry@, order) && mentioned(*root, registry@, order, n@),
{
    let order = match bundle_order(root, registry) {
        Ok(o) => o,
        Err(e) => return Err(e),
    };
    let mut text = root.source.clone();
    let mut k: usize = 0;
    while k < order.len()
        invariant
            k <= order@.len(),
            distinct_defs(*root, registry@, order@),
            text@ == bundle_text(*root, registry@, order@.take(k as int)),
        decreases order@.len() - k,
    {
        proof {
            assert(order@.take(k as int + 1).drop_last() =~= order@.take(k as int));
        }
        text.append("\n");
        text.append(registry[order[k]].source.as_str());
        k = k + 1;
    }
    proof {
        assert(order@.take(k as int) =~= order@);
    }
    Ok(text)
}

} // verus!
