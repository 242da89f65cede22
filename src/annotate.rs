//! Construct descriptions exchanged with guest modules, and the decisions
//! the annotation processor takes around a guest run.
use vstd::prelude::*;
use crate::text::{
    chars_of, contains, find_from, first_at, lemma_first_at, occurs_at, string_of, views,
};

verus! {

/// A field of a described struct. `is_public` is only meaningful for struct
/// fields.
pub struct UserField {
    pub is_public: bool,
    pub name: String,
    pub ty: String,
}

/// A parameter of a described function; `name` is `&self` and `ty` empty
/// for a receiver.
pub struct UserInput {
    pub is_self: bool,
    pub name: String,
    pub ty: String,
}

/// The description of an annotated construct. A guest may change `name`
/// and `is_pub`; every other field is informational.
pub enum UserData {
    Struct { name: String, is_pub: bool, fields: Vec<UserField> },
    Function {
        name: String,
        is_pub: bool,
        is_async: bool,
        inputs: Vec<UserInput>,
        return_ty: String,
    },
    Module { name: String, is_pub: bool },
    GlobalVariable { name: String, is_pub: bool },
    Match { name: String, is_pub: bool },
    Missing,
}

/// A line a guest contributes to a shared output file.
pub struct SharedOutputEntry {
    pub filename: String,
    pub label: String,
    pub line: String,
    pub unique: bool,
    pub after: Option<String>,
}

/// A file a guest asks to emit under its own output directory.
pub struct FileOut {
    pub name: String,
    pub data: Vec<u8>,
}

/// The object a guest receives and hands back.
pub struct LibraryObj {
    pub compiler_error_message: String,
    pub add_code_after: Vec<String>,
    pub crate_name: String,
    pub user_data: UserData,
    pub shared_output_data: Vec<SharedOutputEntry>,
}

impl LibraryObj {
    /// An object with empty text, no entries and a missing description.
    pub fn new() -> (r: LibraryObj)
        ensures
            r.compiler_error_message@ == Seq::<char>::empty(),
            r.add_code_after@.len() == 0,
            r.crate_name@ == Seq::<char>::empty(),
            r.user_data is Missing,
            r.shared_output_data@.len() == 0,
    {
        LibraryObj {
            compiler_error_message: String::new(),
            add_code_after: Vec::new(),
            crate_name: String::new(),
            user_data: UserData::Missing,
            shared_output_data: Vec::new(),
        }
    }

    /// Records a compile error for the annotated construct.
    pub fn report_error(&mut self, err_msg: &str)
        ensures
            final(self).compiler_error_message@ == err_msg@,
            final(self).add_code_after == old(self).add_code_after,
            final(self).crate_name == old(self).crate_name,
            final(self).user_data == old(self).user_data,
            final(self).shared_output_data == old(self).shared_output_data,
    {
        self.compiler_error_message = err_msg.to_owned();
    }
}

/// Why an annotation could not be processed.
pub enum AnnotateError {
    /// The closure does not read `|name: &mut module::Type| ...`.
    MalformedSignature,
    /// The guest module has no `wasm_entrypoint(obj: &mut LibraryObj, cb)`.
    MissingEntrypoint(String),
    /// The guest module has no `pub type ExportType = SomeStruct;`.
    MissingExportType(String),
}

// ---------------------------------------------------------------------------
// The closure signature

pub open spec fn is_space(c: char) -> bool {
    c == ' ' || c == '\t' || c == '\n' || c == '\r'
}

pub open spec fn without_spaces(s: Seq<char>) -> Seq<char>
    decreases s.len(),
{
    if s.len() == 0 {
        s
    } else if is_space(s.last()) {
        without_spaces(s.drop_last())
    } else {
        without_spaces(s.drop_last()).push(s.last())
    }
}

/// The text of `s` from `from` up to the next occurrence of `pat`, or to
/// the end when there is none.
pub open spec fn up_to(s: Seq<char>, pat: Seq<char>) -> Seq<char> {
    if contains(s, pat) {
        s.take(first_at(s, pat))
    } else {
        s
    }
}

/// The guest module a transformation closure `|name: &mut module::Type| ...`
/// targets: between the first two bars, with whitespace removed, after the
/// first `&mut` and before the first `::`.
pub open spec fn closure_module(attr: Seq<char>) -> Option<Seq<char>> {
    if !contains(attr, "|"@) {
        None
    } else {
        let sig = up_to(attr.skip(first_at(attr, "|"@) + 1), "|"@);
        let ns = without_spaces(sig);
        if !contains(ns, "&mut"@) {
            None
        } else {
            let after = ns.skip(first_at(ns, "&mut"@) + 4);
            if !contains(after, "::"@) {
                None
            } else {
                Some(after.take(first_at(after, "::"@)))
            }
        }
    }
}

fn first_occurrence(s: &Vec<char>, pat: &str) -> (r: Option<usize>)
    ensures
        r matches Some(i) ==> contains(s@, pat@) && first_at(s@, pat@) == i && i + pat@.len() <= s@.len(),
        r is None ==> !contains(s@, pat@),
{
    let pc = chars_of(pat);
    match find_from(s, &pc, 0) {
        Some(i) => {
            proof {
                lemma_first_at(s@, pat@, i as int);
            }
            Some(i)
        },
        None => {
            proof {
                if contains(s@, pat@) {
                    let j = choose|j: int| occurs_at(s@, pat@, j);
                }
            }
            None
        },
    }
}

fn slice_chars(s: &Vec<char>, from: usize, to: usize) -> (r: Vec<char>)
    requires
        from <= to <= s@.len(),
    ensures
        r@ == s@.subrange(from as int, to as int),
{
    let mut r: Vec<char> = Vec::new();
    let mut i = from;
    while i < to
        invariant
            from <= i <= to <= s@.len(),
            r@ == s@.subrange(from as int, i as int),
        decreases to - i,
    {
        r.push(s[i]);
        i = i + 1;
        proof {
            assert(r@ =~= s@.subrange(from as int, i as int));
        }
    }
    r
}

fn between_bars(cs: &Vec<char>) -> (r: Option<Vec<char>>)
    ensures
        r matches Some(sig) ==> contains(cs@, "|"@) && sig@ == up_to(cs@.skip(first_at(cs@, "|"@) + 1), "|"@),
        r is None ==> !contains(cs@, "|"@),
{
    proof {
        reveal_strlit("|");
    }
    let n = cs.len();
    let bar = match first_occurrence(cs, "|") {
        Some(b) => b,
        None => return None,
    };
    let rest = slice_chars(cs, bar + 1, n);
    let end = match first_occurrence(&rest, "|") {
        Some(e) => e,
        None => rest.len(),
    };
    let sig = slice_chars(&rest, 0, end);
    proof {
        assert(rest@ =~= cs@.skip(first_at(cs@, "|"@) + 1));
        assert(sig@ =~= up_to(rest@, "|"@));
    }
    Some(sig)
}

fn drop_spaces(sig: &Vec<char>) -> (r: Vec<char>)
    ensures
        r@ == without_spaces(sig@),
{
    let mut ns: Vec<char> = Vec::new();
    let mut i: usize = 0;
    while i < sig.len()
        invariant
            i <= sig@.len(),
            ns@ == without_spaces(sig@.take(i as int)),
        decreases sig@.len() - i,
    {
        let c = sig[i];
        proof {
            assert(sig@.take(i as int + 1).drop_last() =~= sig@.take(i as int));
        }
        if !(c == ' ' || c == '\t' || c == '\n' || c == '\r') {
            ns.push(c);
        }
        i = i + 1;
    }
    proof {
        assert(sig@.take(i as int) =~= sig@);
    }
    ns
}

fn module_of_signature(ns: &Vec<char>) -> (r: Option<Vec<char>>)
    ensures
        r matches Some(m) ==> contains(ns@, "&mut"@) && contains(ns@.skip(first_at(ns@, "&mut"@) + 4), "::"@)
            && m@ == ns@.skip(first_at(ns@, "&mut"@) + 4).take(first_at(ns@.skip(first_at(ns@, "&mut"@) + 4), "::"@)),
        r is None ==> !contains(ns@, "&mut"@) || !contains(ns@.skip(first_at(ns@, "&mut"@) + 4), "::"@),
{
    proof {
        reveal_strlit("&mut");
        reveal_strlit("::");
    }
    let n = ns.len();
    let m = match first_occurrence(ns, "&mut") {
        Some(m) => m,
        None => return None,
    };
    let after = slice_chars(ns, m + 4, n);
    proof {
        assert(after@ =~= ns@.skip(first_at(ns@, "&mut"@) + 4));
    }
    let colons = match first_occurrence(&after, "::") {
        Some(c) => c,
        None => return None,
    };
    let name = slice_chars(&after, 0, colons);
    proof {
        assert(name@ =~= after@.take(first_at(after@, "::"@)));
    }
    Some(name)
}

/// Reads the guest module a transformation closure targets.
pub fn parse_closure_module(attr: &str) -> (r: Result<String, AnnotateError>)
    ensures
        r matches Ok(m) ==> closure_module(attr@) == Some(m@),
        r is Err ==> closure_module(attr@) is None && r->Err_0 is MalformedSignature,
{
    let cs = chars_of(attr);
    let sig = match between_bars(&cs) {
        Some(s) => s,
        None => return Err(AnnotateError::MalformedSignature),
    };
    let ns = drop_spaces(&sig);
    match module_of_signature(&ns) {
        Some(name) => Ok(string_of(name.as_slice())),
        None => Err(AnnotateError::MalformedSignature),
    }
}

// ---------------------------------------------------------------------------
// The guest module's declarations

/// The shape of a parameter of a guest function.
pub enum ParamShape {
    Receiver,
    /// A typed parameter; for `&mut P`, with `P` a path, the first segment
    /// of `P`.
    Typed { mut_ref_head: Option<String> },
}

/// A top-level item of a guest module, as far as validation reads it.
pub enum GuestItem {
    /// `type name = ...;`, with the segments of the target when it is a path.
    TypeAlias { name: String, target: Vec<String> },
    /// `const name = ...;`, with the string literals (as written, quotes
    /// included) when the value is an array or a reference to one.
    Const { name: String, strings: Option<Vec<String>> },
    Function { name: String, returns_unit: bool, params: Vec<ParamShape> },
    Other,
}

/// What a valid guest module declares.
pub struct GuestInfo {
    pub export_type: String,
    pub required_crates: Option<Vec<String>>,
}

pub open spec fn export_of(item: GuestItem) -> Option<Seq<char>> {
    match item {
        GuestItem::TypeAlias { name, target } => if name@ == "ExportType"@ && target@.len() == 1 {
            Some(target@[0]@)
        } else {
            None
        },
        _ => None,
    }
}

pub open spec fn is_entrypoint(item: GuestItem) -> bool {
    match item {
        GuestItem::Function { name, returns_unit, params } => {
            &&& name@ == "wasm_entrypoint"@
            &&& returns_unit
            &&& params@.len() == 2
            &&& params@[0] matches ParamShape::Typed { mut_ref_head: Some(h) }
            &&& params@[0]->mut_ref_head->Some_0@ == "LibraryObj"@
        },
        _ => false,
    }
}

pub open spec fn required_of(item: GuestItem) -> Option<Seq<Seq<char>>> {
    match item {
        GuestItem::Const { name, strings } => if name@ == "REQUIRED_CRATES"@ {
            match strings {
                Some(v) => Some(views(v@).map_values(|t: Seq<char>| strip_quotes(t))),
                None => None,
            }
        } else {
            None
        },
        _ => None,
    }
}

/// The first item for which `f` gives a value, and that value.
pub open spec fn first_export(items: Seq<GuestItem>) -> Option<Seq<char>>
    decreases items.len(),
{
    if items.len() == 0 {
        None
    } else if export_of(items[0]) is Some {
        export_of(items[0])
    } else {
        first_export(items.drop_first())
    }
}

pub open spec fn first_required(items: Seq<GuestItem>) -> Option<Seq<Seq<char>>>
    decreases items.len(),
{
    if items.len() == 0 {
        None
    } else if required_of(items[0]) is Some {
        required_of(items[0])
    } else {
        first_required(items.drop_first())
    }
}

/// A literal's text without the double quotes around it (repeatedly, as
/// nested quoting is stripped too).
pub open spec fn strip_quotes(s: Seq<char>) -> Seq<char>
    decreases s.len(),
{
    if s.len() >= 2 && s[0] == '"' && s.last() == '"' {
        strip_quotes(s.subrange(1, s.len() - 1))
    } else if s.len() == 1 && s[0] == '"' {
        Seq::empty()
    } else {
        s
    }
}

/// A literal's text without its surrounding double quotes.
pub fn unquote(s: &str) -> (r: String)
    ensures
        r@ == strip_quotes(s@),
{
    let cs = chars_of(s);
    let mut lo: usize = 0;
    let mut hi: usize = cs.len();
    proof {
        assert(cs@.subrange(0, cs@.len() as int) =~= cs@);
    }
    while hi - lo >= 2 && cs[lo] == '"' && cs[hi - 1] == '"'
        invariant
            lo <= hi <= cs@.len(),
            strip_quotes(cs@.subrange(lo as int, hi as int)) == strip_quotes(cs@),
        decreases hi - lo,
    {
        proof {
            let t = cs@.subrange(lo as int, hi as int);
            assert(t.subrange(1, t.len() - 1) =~= cs@.subrange(lo + 1, hi - 1));
        }
        lo = lo + 1;
        hi = hi - 1;
    }
    proof {
        assert(cs@.subrange(0, cs@.len() as int) =~= cs@);
    }
    if hi - lo == 1 && cs[lo] == '"' {
        return String::new();
    }
    let out = slice_chars(&cs, lo, hi);
    string_of(out.as_slice())
}

fn is_str(s: &String, lit: &str) -> (r: bool)
    ensures
        r == (s@ == lit@),
{
    let a = chars_of(s.as_str());
    let b = chars_of(lit);
    if a.len() != b.len() {
        proof {
            assert(a@.len() != b@.len());
        }
        return false;
    }
    let mut i: usize = 0;
    while i < a.len()
        invariant
            a@ == s@,
            b@ == lit@,
            a@.len() == b@.len(),
            i <= a@.len(),
            forall|j: int| 0 <= j < i ==> a@[j] == b@[j],
        decreases a@.len() - i,
    {
        if a[i] != b[i] {
            proof {
                assert(a@[i as int] != b@[i as int]);
            }
            return false;
        }
        i = i + 1;
    }
    proof {
        assert(a@ =~= b@);
    }
    true
}

fn entrypoint_shape(item: &GuestItem) -> (r: bool)
    ensures
        r == is_entrypoint(*item),
{
    match item {
        GuestItem::Function { name, returns_unit, params } => {
            if !is_str(name, "wasm_entrypoint") || !*returns_unit || params.len() != 2 {
                return false;
            }
            match &params[0] {
                ParamShape::Typed { mut_ref_head: Some(h) } => is_str(h, "LibraryObj"),
                _ => false,
            }
        },
        _ => false,
    }
}

fn export_name(item: &GuestItem) -> (r: Option<String>)
    ensures
        r matches Some(n) ==> export_of(*item) == Some(n@),
        r is None ==> export_of(*item) is None,
{
    match item {
        GuestItem::TypeAlias { name, target } => {
            if is_str(name, "ExportType") && target.len() == 1 {
                Some(target[0].clone())
            } else {
                None
            }
        },
        _ => None,
    }
}

fn required_names(item: &GuestItem) -> (r: Option<Vec<String>>)
    ensures
        r matches Some(v) ==> required_of(*item) == Some(views(v@)),
        r is None ==> required_of(*item) is None,
{
    match item {
        GuestItem::Const { name, strings: Some(v) } => {
            if !is_str(name, "REQUIRED_CRATES") {
                return None;
            }
            let mut out: Vec<String> = Vec::new();
            let mut i: usize = 0;
            while i < v.len()
                invariant
                    i <= v@.len(),
                    out@.len() == i,
                    forall|j: int| 0 <= j < i ==> #[trigger] out@[j]@ == strip_quotes(v@[j]@),
                decreases v@.len() - i,
            {
                let u = unquote(v[i].as_str());
                out.push(u);
                i = i + 1;
            }
            proof {
                let mv = views(v@).map_values(|t: Seq<char>| strip_quotes(t));
                assert forall|j: int| 0 <= j < i implies #[trigger] views(out@)[j] == mv[j] by {
                    assert(views(v@)[j] == v@[j]@);
                }
                assert(views(out@) =~= mv);
            }
            Some(out)
        },
        _ => None,
    }
}

/// Checks a guest module's declarations: it must have the entry point
/// `fn wasm_entrypoint(obj: &mut LibraryObj, cb)` returning nothing, and
/// an `ExportType` alias of a single-segment path. Yields the exported type
/// and, when declared, the required crates.
pub fn validate_guest(items: &Vec<GuestItem>, path: &str) -> (r: Result<GuestInfo, AnnotateError>)
    ensures
        !(exists|k: int| 0 <= k < items@.len() && is_entrypoint(#[trigger] items@[k])) ==> (r matches Err(AnnotateError::MissingEntrypoint(p)) && p@ == path@),
        (exists|k: int| 0 <= k < items@.len() && is_entrypoint(#[trigger] items@[k])) && first_export(items@) is None ==> (r matches Err(AnnotateError::MissingExportType(p)) && p@ == path@),
        (exists|k: int| 0 <= k < items@.len() && is_entrypoint(#[trigger] items@[k])) && first_export(items@) is Some ==> r is Ok,
        r matches Ok(info) ==> (exists|k: int| 0 <= k < items@.len() && is_entrypoint(#[trigger] items@[k]))
            && first_export(items@) == Some(info.export_type@)
            && match info.required_crates {
                Some(v) => first_required(items@) == Some(views(v@)),
                None => first_required(items@) is None,
            },
{
    let mut found = false;
    let mut export: Option<String> = None;
    let mut required: Option<Vec<String>> = None;
    let mut i: usize = 0;
    proof {
        assert(items@.skip(0) =~= items@);
    }
    while i < items.len()
        invariant
            i <= items@.len(),
            found == exists|k: int| 0 <= k < i && is_entrypoint(#[trigger] items@[k]),
            match export {
                Some(n) => first_export(items@) == Some(n@),
                None => first_export(items@) == first_export(items@.skip(i as int)),
            },
            match required {
                Some(v) => first_required(items@) == Some(views(v@)),
                None => first_required(items@) == first_required(items@.skip(i as int)),
            },
        decreases items@.len() - i,
    {
        proof {
            assert(items@.skip(i as int)[0] == items@[i as int]);
            assert(items@.skip(i as int).drop_first() =~= items@.skip(i as int + 1));
        }
        if entrypoint_shape(&items[i]) {
            found = true;
        }
        if export.is_none() {
            export = export_name(&items[i]);
        }
        if required.is_none() {
            required = required_names(&items[i]);
        }
        i = i + 1;
    }
    proof {
        assert(items@.skip(i as int) =~= Seq::<GuestItem>::empty());
    }
    if !found {
        return Err(AnnotateError::MissingEntrypoint(path.to_owned()));
    }
    match export {
        Some(n) => Ok(GuestInfo { export_type: n, required_crates: required }),
        None => Err(AnnotateError::MissingExportType(path.to_owned())),
    }
}

// ---------------------------------------------------------------------------
// Applying a guest's answer to the annotated item

/// The visibility of an item as written.
#[derive(Clone, Copy, Debug, PartialEq, Eq, Structural)]
pub enum Visibility {
    Public,
    Restricted,
    Inherited,
}

/// The kinds of annotated constructs.
#[derive(Clone, Copy, Debug, PartialEq, Eq, Structural)]
pub enum ConstructKind {
    Struct,
    Function,
    Constant,
    Static,
    Module,
    Match,
}

/// The parts of an annotated item a guest may change.
pub struct ItemHeader {
    pub kind: ConstructKind,
    pub name: String,
    pub vis: Visibility,
}

/// The visibility after a guest asked for public (`true`) or private: only
/// `pub` becomes private, and only a non-`pub` item becomes `pub`.
pub open spec fn new_visibility(vis: Visibility, is_pub: bool) -> Visibility {
    match (vis, is_pub) {
        (Visibility::Public, false) => Visibility::Inherited,
        (Visibility::Restricted, true) => Visibility::Public,
        (Visibility::Inherited, true) => Visibility::Public,
        _ => vis,
    }
}

pub fn set_visibility(vis: &mut Visibility, is_pub: bool)
    ensures
        *final(vis) == new_visibility(*old(vis), is_pub),
{
    *vis = match (*vis, is_pub) {
        (Visibility::Public, false) => Visibility::Inherited,
        (Visibility::Restricted, true) => Visibility::Public,
        (Visibility::Inherited, true) => Visibility::Public,
        (v, _) => v,
    };
}

pub fn is_public(vis: Visibility) -> (r: bool)
    ensures
        r == (vis is Public),
{
    match vis {
        Visibility::Public => true,
        _ => false,
    }
}

/// The name and public flag a guest returned for an item of kind `kind`,
/// when the returned description is of that kind; a match expression is
/// never changed.
pub open spec fn returned_for(kind: ConstructKind, d: UserData) -> Option<(Seq<char>, bool)> {
    match (kind, d) {
        (ConstructKind::Struct, UserData::Struct { name, is_pub, .. }) => Some((name@, is_pub)),
        (ConstructKind::Function, UserData::Function { name, is_pub, .. }) => Some((name@, is_pub)),
        (ConstructKind::Constant, UserData::GlobalVariable { name, is_pub }) => Some((name@, is_pub)),
        (ConstructKind::Static, UserData::GlobalVariable { name, is_pub }) => Some((name@, is_pub)),
        (ConstructKind::Module, UserData::Module { name, is_pub }) => Some((name@, is_pub)),
        _ => None,
    }
}

/// Applies the name and visibility a guest returned; every other field of
/// the description is informational and ignored.
pub fn apply_changes(header: &mut ItemHeader, returned: &UserData)
    ensures
        final(header).kind == old(header).kind,
        match returned_for(old(header).kind, *returned) {
            Some((n, p)) => final(header).name@ == n && final(header).vis == new_visibility(
                old(header).vis,
                p,
            ),
            None => final(header).name == old(header).name && final(header).vis == old(header).vis,
        },
{
    let change = match (header.kind, returned) {
        (ConstructKind::Struct, UserData::Struct { name, is_pub, .. }) => Some((name, *is_pub)),
        (ConstructKind::Function, UserData::Function { name, is_pub, .. }) => Some((name, *is_pub)),
        (ConstructKind::Constant, UserData::GlobalVariable { name, is_pub }) => Some((name, *is_pub)),
        (ConstructKind::Static, UserData::GlobalVariable { name, is_pub }) => Some((name, *is_pub)),
        (ConstructKind::Module, UserData::Module { name, is_pub }) => Some((name, *is_pub)),
        _ => None,
    };
    match change {
        Some((name, p)) => {
            if header.name != *name {
                header.name = name.clone();
            }
            set_visibility(&mut header.vis, p);
        },
        None => {},
    }
}

// ---------------------------------------------------------------------------
// Environment toggles

/// Whether guest runs may write files: on when the build runs with full
/// backtraces (a real build rather than an editor check), unless the user's
/// toggle says otherwise (`false`/`0` off, `true`/`1` on).
pub open spec fn file_ops_enabled(backtrace: Option<Seq<char>>, toggle: Option<Seq<char>>) -> bool {
    let inferred = backtrace == Some("full"@);
    match toggle {
        Some(t) => if t == "false"@ || t == "0"@ {
            false
        } else if t == "true"@ || t == "1"@ {
            true
        } else {
            inferred
        },
        None => inferred,
    }
}

pub fn should_do_file_operations(backtrace: Option<&str>, toggle: Option<&str>) -> (r: bool)
    ensures
        r == file_ops_enabled(
            match backtrace {
                Some(b) => Some(b@),
                None => None,
            },
            match toggle {
                Some(t) => Some(t@),
                None => None,
            },
        ),
{
    let mut should_do = false;
    if let Some(b) = backtrace {
        if is_str(&b.to_owned(), "full") {
            should_do = true;
        }
    }
    if let Some(t) = toggle {
        let t = t.to_owned();
        if is_str(&t, "false") || is_str(&t, "0") {
            should_do = false;
        } else if is_str(&t, "true") || is_str(&t, "1") {
            should_do = true;
        }
    }
    should_do
}

// ---------------------------------------------------------------------------
// Composing the guest unit

/// The path of a guest module's source under the modules directory.
pub fn guest_source_path(base: &str, module: &str) -> (r: String)
    ensures
        r@ == base@ + "/"@ + module@ + ".rs"@,
{
    let mut r = base.to_owned();
    r.append("/");
    r.append(module);
    r.append(".rs");
    r
}

pub open spec fn guest_unit(module: Seq<char>, source: Seq<char>, export: Seq<char>, closure: Seq<char>) -> Seq<char> {
    "pub fn wasm_main(library_obj: &mut LibraryObj) { "@ + module
        + "::wasm_entrypoint(library_obj, users_fn); }\nmod "@ + module
        + " { use super::LibraryObj; use super::UserData;\n"@ + source
        + "\n}\npub fn users_fn(data: &mut "@ + module + "::"@ + export
        + ") { let cb = "@ + closure + "; cb(data); }\n"@
}

/// The guest unit: an entry wrapper that calls the module's entry point
/// with the user's closure, the module's source in a module of its own,
/// and the closure applied to the exported type.
pub fn compose_guest_unit(module: &str, source: &str, export: &str, closure: &str) -> (r: String)
    ensures
        r@ == guest_unit(module@, source@, export@, closure@),
{
    let mut r = "pub fn wasm_main(library_obj: &mut LibraryObj) { ".to_owned();
    r.append(module);
    r.append("::wasm_entrypoint(library_obj, users_fn); }\nmod ");
    r.append(module);
    r.append(" { use super::LibraryObj; use super::UserData;\n");
    r.append(source);
    r.append("\n}\npub fn users_fn(data: &mut ");
    r.append(module);
    r.append("::");
    r.append(export);
    r.append(") { let cb = ");
    r.append(closure);
    r.append("; cb(data); }\n");
    r
}

// ---------------------------------------------------------------------------
// The documentation of an exported struct

/// A field of an exported struct, as its documentation shows it.
pub struct DocField {
    pub docs: Vec<String>,
    pub vis: String,
    pub name: String,
    pub ty: String,
}

pub open spec fn doc_lines(docs: Seq<String>) -> Seq<char>
    decreases docs.len(),
{
    if docs.len() == 0 {
        Seq::empty()
    } else {
        doc_lines(docs.drop_last()) + "  ///"@ + strip_quotes(docs.last()@) + "\n"@
    }
}

pub open spec fn field_lines(fields: Seq<DocField>) -> Seq<char>
    decreases fields.len(),
{
    if fields.len() == 0 {
        Seq::empty()
    } else {
        let f = fields.last();
        field_lines(fields.drop_last()) + doc_lines(f.docs@) + "  "@ + f.vis@ + " "@ + f.name@
            + ": "@ + f.ty@ + ",\n"@
    }
}

pub open spec fn struct_doc(vis: Seq<char>, name: Seq<char>, fields: Seq<DocField>) -> Seq<char> {
    "# Full Definition:\n\n```\n"@ + vis + " struct "@ + name + " {\n"@ + field_lines(fields)
        + "}\n```\n"@
}

/// The full definition of an exported struct, as a documentation block.
pub fn struct_doc_comment(vis: &str, name: &str, fields: &Vec<DocField>) -> (r: String)
    ensures
        r@ == struct_doc(vis@, name@, fields@),
{
    let mut s = "# Full Definition:\n\n```\n".to_owned();
    s.append(vis);
    s.append(" struct ");
    s.append(name);
    s.append(" {\n");
    let ghost head = s@;
    let mut k: usize = 0;
    while k < fields.len()
        invariant
            k <= fields@.len(),
            s@ == head + field_lines(fields@.take(k as int)),
        decreases fields@.len() - k,
    {
        let f = &fields[k];
        let ghost before = s@;
        let mut d: usize = 0;
        while d < f.docs.len()
            invariant
                d <= f.docs@.len(),
                s@ == before + doc_lines(f.docs@.take(d as int)),
            decreases f.docs@.len() - d,
        {
            proof {
                assert(f.docs@.take(d as int + 1).drop_last() =~= f.docs@.take(d as int));
            }
            s.append("  ///");
            s.append(unquote(f.docs[d].as_str()).as_str());
            s.append("\n");
            d = d + 1;
        }
        proof {
            assert(f.docs@.take(d as int) =~= f.docs@);
            assert(fields@.take(k as int + 1).drop_last() =~= fields@.take(k as int));
        }
        s.append("  ");
        s.append(f.vis.as_str());
        s.append(" ");
        s.append(f.name.as_str());
        s.append(": ");
        s.append(f.ty.as_str());
        s.append(",\n");
        k = k + 1;
    }
    proof {
        assert(fields@.take(k as int) =~= fields@);
    }
    s.append("}\n```\n");
    s
}

// ---------------------------------------------------------------------------
// Directories and the bulk import of guest exports

/// The directory guest module sources live in.
pub fn modules_dir(manifest_dir: &str) -> (r: String)
    ensures
        r@ == manifest_dir@ + "/wasm_modules"@,
{
    let mut r = manifest_dir.to_owned();
    r.append("/wasm_modules");
    r
}

/// The directory shared output files are written to.
pub fn shared_dir(manifest_dir: &str) -> (r: String)
    ensures
        r@ == manifest_dir@ + "/wasmgen"@,
{
    let mut r = manifest_dir.to_owned();
    r.append("/wasmgen");
    r
}

/// A requested module path with the `.rs` extension it may omit.
pub open spec fn with_rs(p: Seq<char>) -> Seq<char> {
    if p.len() >= 3 && p.subrange(p.len() - 3, p.len() as int) == ".rs"@ {
        p
    } else {
        p + ".rs"@
    }
}

/// The last `/`-separated component of `p`.
pub open spec fn last_component(p: Seq<char>) -> Seq<char>
    decreases p.len(),
{
    if p.len() == 0 {
        p
    } else if p.last() == '/' {
        Seq::empty()
    } else {
        last_component(p.drop_last()).push(p.last())
    }
}

/// The module name of a path ending in `.rs`: its file name without the
/// extension (a bare `.rs` stays as it is).
pub open spec fn rs_stem(p: Seq<char>) -> Seq<char> {
    let c = last_component(p);
    if c.len() > 3 {
        c.take(c.len() - 3)
    } else {
        c
    }
}

/// Where a bulk-imported module is read from, and the module it becomes.
pub fn import_target(base: &str, requested: &str) -> (r: (String, String))
    ensures
        r.0@ == base@ + "/"@ + with_rs(requested@),
        r.1@ == rs_stem(with_rs(requested@)),
{
    proof {
        reveal_strlit(".rs");
    }
    let mut cs = chars_of(requested);
    let n = cs.len();
    let has_ext = n >= 3 && cs[n - 3] == '.' && cs[n - 2] == 'r' && cs[n - 1] == 's';
    proof {
        if n >= 3 {
            let sub = cs@.subrange(n - 3, n as int);
            if has_ext {
                assert(sub =~= ".rs"@);
            } else if sub == ".rs"@ {
                assert(sub[0] == '.' && sub[1] == 'r' && sub[2] == 's');
            }
        }
    }
    if !has_ext {
        cs.push('.');
        cs.push('r');
        cs.push('s');
        proof {
            assert(cs@ =~= requested@ + ".rs"@);
        }
    }
    let ghost full = cs@;
    let mut start = cs.len();
    proof {
        assert(full == with_rs(requested@));
        assert(full.take(full.len() as int) =~= full);
        assert(full.skip(full.len() as int) =~= Seq::<char>::empty());
        assert(last_component(full) + Seq::<char>::empty() =~= last_component(full));
    }
    while start > 0 && cs[start - 1] != '/'
        invariant
            start <= cs@.len(),
            cs@ == full,
            last_component(full) == last_component(full.take(start as int)) + full.skip(start as int),
        decreases start,
    {
        proof {
            let t = full.take(start as int);
            assert(t.drop_last() =~= full.take(start - 1));
            assert(full.skip(start - 1) =~= seq![t.last()] + full.skip(start as int));
            assert(last_component(t) == last_component(t.drop_last()).push(t.last()));
            assert(last_component(t.drop_last()).push(t.last()) + full.skip(start as int) =~= last_component(full.take(start - 1)) + full.skip(start - 1));
        }
        start = start - 1;
    }
    proof {
        assert(full.take(full.len() as int) =~= full);
        assert(full.skip(full.len() as int) =~= Seq::<char>::empty());
        let t = full.take(start as int);
        if start > 0 {
            assert(t.last() == '/');
        }
        assert(last_component(t) =~= Seq::<char>::empty());
    }
    let comp_len = cs.len() - start;
    let stem_end = if comp_len > 3 { cs.len() - 3 } else { cs.len() };
    let stem = slice_chars(&cs, start, stem_end);
    proof {
        let c = full.skip(start as int);
        assert(last_component(full) =~= c);
        if comp_len > 3 {
            assert(stem@ =~= c.take(c.len() - 3));
        } else {
            assert(stem@ =~= c);
        }
    }
    let mut path = base.to_owned();
    path.append("/");
    path.append(string_of(cs.as_slice()).as_str());
    (path, string_of(stem.as_slice()))
}

/// What a bulk import inlines from a guest module: its exported type, when
/// it declares one, and its required crates.
pub fn exported_declarations(items: &Vec<GuestItem>) -> (r: (Option<String>, Option<Vec<String>>))
    ensures
        match r.0 {
            Some(n) => first_export(items@) == Some(n@),
            None => first_export(items@) is None,
        },
        match r.1 {
            Some(v) => first_required(items@) == Some(views(v@)),
            None => first_required(items@) is None,
        },
{
    let mut export: Option<String> = None;
    let mut required: Option<Vec<String>> = None;
    let mut i: usize = 0;
    proof {
        assert(items@.skip(0) =~= items@);
    }
    while i < items.len()
        invariant
            i <= items@.len(),
            match export {
                Some(n) => first_export(items@) == Some(n@),
                None => first_export(items@) == first_export(items@.skip(i as int)),
            },
            match required {
                Some(v) => first_required(items@) == Some(views(v@)),
                None => first_required(items@) == first_required(items@.skip(i as int)),
            },
        decreases items@.len() - i,
    {
        proof {
            assert(items@.skip(i as int)[0] == items@[i as int]);
            assert(items@.skip(i as int).drop_first() =~= items@.skip(i as int + 1));
        }
        if export.is_none() {
            export = export_name(&items[i]);
        }
        if required.is_none() {
            required = required_names(&items[i]);
        }
        i = i + 1;
    }
    proof {
        assert(items@.skip(i as int) =~= Seq::<GuestItem>::empty());
    }
    (export, required)
}

} // verus!
