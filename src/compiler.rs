//! Decisions of the guest module compiler: how a unit's source is composed
//! and named, when a cached artifact is used, what a failed build falls
//! back to, and which dependencies and stale artifacts are involved. The
//! caller runs the external compiler and touches the disk.
use vstd::prelude::*;
use vstd::string::StringSliceAdditionalSpecFns;
use crate::text::{
    contains, contains_str, decimal, decimal_string, is_prefix, remove_all, remove_occurrences,
    replace_char, replace_chars, starts_with, views,
};

verus! {

/// Why a guest build failed.
pub enum CompileError {
    /// The compiler could not be started; holds the underlying diagnostic.
    InvokeFailed(String),
    /// The source could not be streamed to the compiler.
    WriteInputFailed(String),
    /// Waiting for the compiler failed.
    WaitFailed(String),
    /// The compiler rejected the unit; holds its diagnostics.
    CompileFailed(String),
    /// A built artifact could not be read.
    ReadArtifactFailed(String),
    /// Required dependencies the consuming project does not declare.
    MissingExternCrate(Vec<String>),
    /// The consuming project's manifest could not be read or parsed.
    ManifestReadFailed(String),
    /// A multi-unit build was given no unit.
    NoUnits,
}

/// What running the external compiler came to.
pub enum CompileOutcome {
    Built,
    InvokeFailed(String),
    WriteInputFailed(String),
    WaitFailed(String),
    /// Nonzero exit; the diagnostics, or why they could not be read.
    Failed(String),
}

/// Where a unit's module and its last successful build live.
pub struct ArtifactNames {
    pub artifact_path: String,
    pub last_path: String,
}

/// The next step of a single-unit build.
pub enum BuildStep {
    /// The module for this exact text exists; `promote` asks to copy it to
    /// the last-good slot.
    UseCached { path: String, promote: bool },
    /// Interactive context with a last-good module: use it, compile nothing.
    UseLast { path: String },
    /// Run the compiler.
    Compile,
}

/// A finished single-unit build.
pub enum Built {
    /// Compiled now; the caller copies it to the last-good slot.
    Fresh(String),
    /// The compiler failed and the last-good module stands in.
    Fallback(String),
}

/// The statement every guest unit loses: it is compiled on its own, with
/// no enclosing module to import from.
pub open spec fn parent_import() -> Seq<char> {
    "use super::*;"@
}

/// The composed source of a unit.
pub open spec fn composed(fragment: Seq<char>, extra: Option<Seq<char>>) -> Seq<char> {
    remove_all(fragment, parent_import()) + match extra {
        Some(e) => "\n"@ + e,
        None => Seq::empty(),
    }
}

/// The fragment without its imports from the enclosing module, followed by
/// a newline and `extra` when given.
pub fn compose_unit(fragment: &str, extra: Option<&str>) -> (r: String)
    ensures
        r@ == composed(fragment@, match extra {
            Some(e) => Some(e@),
            None => None,
        }),
{
    let mut r = remove_occurrences(fragment, "use super::*;");
    match extra {
        Some(e) => {
            r.append("\n");
            r.append(e);
        },
        None => {},
    }
    r
}

/// The Adler-32 checksum of a byte string.
pub uninterp spec fn adler32_of(b: Seq<u8>) -> u32;

/// Relies on `adler32::adler32`: the Adler-32 checksum of the bytes read;
/// reading a byte slice cannot fail.
#[verifier::external_body]
fn adler32_checksum(b: &[u8]) -> (r: u32)
    ensures
        r == adler32_of(b@),
{
    adler32::adler32(b).unwrap_or(0)
}

/// The content hash of a composed unit: the checksum of its UTF-8 bytes.
pub fn content_hash(text: &str) -> (r: u32)
    ensures
        r == adler32_of(text.spec_bytes()),
{
    adler32_checksum(text.as_bytes())
}

pub open spec fn module_file(unit: Seq<char>, hash: u32) -> Seq<char> {
    if unit.len() == 0 {
        decimal(hash as nat) + ".wasm"@
    } else {
        unit + "."@ + decimal(hash as nat) + ".wasm"@
    }
}

pub open spec fn last_file(unit: Seq<char>) -> Seq<char> {
    if unit.len() == 0 {
        "last.wasm"@
    } else {
        unit + ".last.wasm"@
    }
}

/// The module path of the unit `unit` with content hash `hash` in `dir`,
/// and the path of its last-good module.
pub fn artifact_names(dir: &str, unit: &str, hash: u32) -> (r: ArtifactNames)
    ensures
        r.artifact_path@ == dir@ + "/"@ + module_file(unit@, hash),
        r.last_path@ == dir@ + "/"@ + last_file(unit@),
{
    let digits = decimal_string(hash);
    let mut artifact_path = dir.to_owned();
    artifact_path.append("/");
    let mut last_path = artifact_path.clone();
    if unit.is_empty() {
        artifact_path.append(digits.as_str());
        artifact_path.append(".wasm");
        last_path.append("last.wasm");
    } else {
        artifact_path.append(unit);
        artifact_path.append(".");
        artifact_path.append(digits.as_str());
        artifact_path.append(".wasm");
        last_path.append(unit);
        last_path.append(".last.wasm");
    }
    proof {
        assert(artifact_path@ =~= dir@ + "/"@ + module_file(unit@, hash));
        assert(last_path@ =~= dir@ + "/"@ + last_file(unit@));
    }
    ArtifactNames { artifact_path, last_path }
}

/// The output directory: an absolute request as it is, a relative one
/// under the manifest directory, and `wasmout` there by default.
pub fn output_dir(requested: Option<&str>, manifest_dir: &str) -> (r: String)
    ensures
        r@ == match requested {
            Some(s) => if is_prefix("/"@, s@) {
                s@
            } else {
                manifest_dir@ + "/"@ + s@
            },
            None => manifest_dir@ + "/wasmout"@,
        },
{
    match requested {
        Some(s) => {
            if starts_with(s, "/") {
                s.to_owned()
            } else {
                let mut r = manifest_dir.to_owned();
                r.append("/");
                r.append(s);
                r
            }
        },
        None => {
            let mut r = manifest_dir.to_owned();
            r.append("/wasmout");
            r
        },
    }
}

/// The kinds of [`BuildStep`].
pub enum StepKind {
    Cached,
    Last,
    Compile,
}

pub open spec fn plan_kind(module_exists: bool, last_exists: bool, interactive: bool) -> StepKind {
    if module_exists {
        StepKind::Cached
    } else if interactive && last_exists {
        StepKind::Last
    } else {
        StepKind::Compile
    }
}

/// Decides how a single-unit build proceeds, given which of its files exist
/// and whether the build runs for interactive editing.
pub fn plan_build(names: &ArtifactNames, unit: &str, module_exists: bool, last_exists: bool, interactive: bool) -> (r: BuildStep)
    ensures
        plan_kind(module_exists, last_exists, interactive) is Cached <==> r is UseCached,
        plan_kind(module_exists, last_exists, interactive) is Last <==> r is UseLast,
        plan_kind(module_exists, last_exists, interactive) is Compile <==> r is Compile,
        r matches BuildStep::UseCached { path, promote } ==> path@ == names.artifact_path@ && promote
            == (unit@.len() == 0),
        r matches BuildStep::UseLast { path } ==> path@ == names.last_path@,
{
    if module_exists {
        BuildStep::UseCached { path: names.artifact_path.clone(), promote: unit.is_empty() }
    } else if interactive && last_exists {
        BuildStep::UseLast { path: names.last_path.clone() }
    } else {
        BuildStep::Compile
    }
}

/// The files of a build directory after a successful build of `names`.
pub open spec fn after_success(dir: Set<Seq<char>>, names: ArtifactNames) -> Set<Seq<char>> {
    dir.insert(names.artifact_path@).insert(names.last_path@)
}

/// Building the same composed text twice runs the compiler once: the
/// first build that compiles leaves its module behind, and the module path
/// depends on the text alone, so the second build is a cache hit.
pub proof fn lemma_second_build_is_cached(
    dir: Set<Seq<char>>,
    names: ArtifactNames,
    interactive: bool,
)
    requires
        plan_kind(dir.contains(names.artifact_path@), dir.contains(names.last_path@), interactive) is Compile,
    ensures
        plan_kind(
            after_success(dir, names).contains(names.artifact_path@),
            after_success(dir, names).contains(names.last_path@),
            interactive,
        ) is Cached,
{
}

/// Settles a build that ran the compiler. A success yields the new module;
/// any failure yields the last-good module when there is one, and
/// otherwise the failure itself with its diagnostic.
pub fn finish_build(outcome: CompileOutcome, names: &ArtifactNames, last_exists: bool) -> (r: Result<Built, CompileError>)
    ensures
        outcome is Built ==> (r matches Ok(Built::Fresh(p)) && p@ == names.artifact_path@),
        !(outcome is Built) && last_exists ==> (r matches Ok(Built::Fallback(p)) && p@
            == names.last_path@),
        outcome matches CompileOutcome::InvokeFailed(d) ==> last_exists || (r matches Err(
            CompileError::InvokeFailed(e),
        ) && e@ == d@),
        outcome matches CompileOutcome::WriteInputFailed(d) ==> last_exists || (r matches Err(
            CompileError::WriteInputFailed(e),
        ) && e@ == d@),
        outcome matches CompileOutcome::WaitFailed(d) ==> last_exists || (r matches Err(
            CompileError::WaitFailed(e),
        ) && e@ == d@),
        outcome matches CompileOutcome::Failed(d) ==> last_exists || (r matches Err(
            CompileError::CompileFailed(e),
        ) && e@ == d@),
{
    match outcome {
        CompileOutcome::Built => Ok(Built::Fresh(names.artifact_path.clone())),
        _ if last_exists => Ok(Built::Fallback(names.last_path.clone())),
        CompileOutcome::InvokeFailed(d) => Err(CompileError::InvokeFailed(d)),
        CompileOutcome::WriteInputFailed(d) => Err(CompileError::WriteInputFailed(d)),
        CompileOutcome::WaitFailed(d) => Err(CompileError::WaitFailed(d)),
        CompileOutcome::Failed(d) => Err(CompileError::CompileFailed(d)),
    }
}

// ---------------------------------------------------------------------------
// Multi-unit builds

/// The files of one unit of a multi-unit build. All but the last unit are
/// libraries (`lib<name>.rlib`); the last is the loadable module
/// (`<name>.wasm`). The stamp file records the content hash the artifact
/// was built from.
pub struct UnitArtifact {
    pub output_name: String,
    pub output_path: String,
    pub stamp_path: String,
    pub delete_prefix: String,
}

pub open spec fn unit_output_name(name: Seq<char>, is_final: bool) -> Seq<char> {
    if is_final {
        name + ".wasm"@
    } else {
        "lib"@ + name + ".rlib"@
    }
}

pub open spec fn unit_prefix(name: Seq<char>, is_final: bool) -> Seq<char> {
    if is_final {
        name
    } else {
        "lib"@ + name
    }
}

/// The files of the unit `name` with content hash `hash` in `dir`.
pub fn unit_artifact(dir: &str, name: &str, hash: u32, is_final: bool) -> (r: UnitArtifact)
    ensures
        r.output_name@ == unit_output_name(name@, is_final),
        r.output_path@ == dir@ + "/"@ + unit_output_name(name@, is_final),
        r.stamp_path@ == dir@ + "/"@ + unit_output_name(name@, is_final) + "."@ + decimal(
            hash as nat,
        ) + ".txt"@,
        r.delete_prefix@ == unit_prefix(name@, is_final),
{
    let mut delete_prefix = String::new();
    if !is_final {
        delete_prefix.append("lib");
    }
    delete_prefix.append(name);
    let mut output_name = delete_prefix.clone();
    if is_final {
        output_name.append(".wasm");
    } else {
        output_name.append(".rlib");
    }
    let mut output_path = dir.to_owned();
    output_path.append("/");
    output_path.append(output_name.as_str());
    let mut stamp_path = output_path.clone();
    stamp_path.append(".");
    stamp_path.append(decimal_string(hash).as_str());
    stamp_path.append(".txt");
    proof {
        assert(delete_prefix@ =~= unit_prefix(name@, is_final));
        assert(output_name@ =~= unit_output_name(name@, is_final));
        assert(output_path@ =~= dir@ + "/"@ + unit_output_name(name@, is_final));
        assert(stamp_path@ =~= dir@ + "/"@ + unit_output_name(name@, is_final) + "."@ + decimal(
            hash as nat,
        ) + ".txt"@);
    }
    UnitArtifact { output_name, output_path, stamp_path, delete_prefix }
}

/// The first unit whose stamp is missing. That unit and every later one
/// must be rebuilt, since each may depend on those before it; when every
/// stamp is present the last unit's module is returned as it is.
pub fn first_stale(stamped: &Vec<bool>) -> (r: Option<usize>)
    ensures
        r matches Some(i) ==> i < stamped@.len() && !stamped@[i as int] && forall|j: int|
            0 <= j < i ==> stamped@[j],
        r is None ==> forall|j: int| 0 <= j < stamped@.len() ==> stamped@[j],
{
    let mut i: usize = 0;
    while i < stamped.len()
        invariant
            i <= stamped@.len(),
            forall|j: int| 0 <= j < i ==> stamped@[j],
        decreases stamped@.len() - i,
    {
        if !stamped[i] {
            return Some(i);
        }
        i = i + 1;
    }
    None
}

/// What a multi-unit build does, given which units' stamps are present.
pub enum UnitsPlan {
    /// Every unit is current: the last unit's module is the result.
    Current(String),
    /// Units `from ..` are rebuilt in order; afterwards files starting with
    /// one of `delete_prefixes` are removed, except those in `keep`.
    Rebuild { from: usize, delete_prefixes: Vec<String>, keep: Vec<String> },
}

/// Plans a multi-unit build over its units' files and stamp presence.
///
/// In an interactive context (an editor check rather than a build) an
/// existing final module is used as it is, whatever the stamps say.
pub fn plan_units(units: &Vec<UnitArtifact>, stamped: &Vec<bool>, interactive: bool, final_exists: bool) -> (r: Result<UnitsPlan, CompileError>)
    requires
        units@.len() == stamped@.len(),
    ensures
        units@.len() == 0 ==> r is Err && r->Err_0 is NoUnits,
        units@.len() > 0 && interactive && final_exists ==> (r matches Ok(UnitsPlan::Current(p)) && p@ == units@.last().output_path@),
        units@.len() > 0 && (forall|j: int| 0 <= j < stamped@.len() ==> stamped@[j]) ==> (r matches Ok(UnitsPlan::Current(p)) && p@ == units@.last().output_path@),
        r matches Ok(UnitsPlan::Rebuild { from, delete_prefixes, keep }) ==> {
            &&& from < units@.len()
            &&& !stamped@[from as int]
            &&& forall|j: int| 0 <= j < from ==> stamped@[j]
            &&& views(delete_prefixes@) == units@.skip(from as int).map_values(|u: UnitArtifact| u.delete_prefix@)
            &&& views(keep@) == units@.skip(from as int).map_values(|u: UnitArtifact| u.output_path@)
                + units@.skip(from as int).map_values(|u: UnitArtifact| u.stamp_path@)
        },
        units@.len() > 0 && !(interactive && final_exists) && (exists|j: int| 0 <= j < stamped@.len() && !stamped@[j]) ==> r matches Ok(UnitsPlan::Rebuild { .. }),
{
    if units.len() == 0 {
        return Err(CompileError::NoUnits);
    }
    if interactive && final_exists {
        return Ok(UnitsPlan::Current(units[units.len() - 1].output_path.clone()));
    }
    match first_stale(stamped) {
        None => Ok(UnitsPlan::Current(units[units.len() - 1].output_path.clone())),
        Some(from) => {
            let mut delete_prefixes: Vec<String> = Vec::new();
            let mut keep: Vec<String> = Vec::new();
            let mut stamps: Vec<String> = Vec::new();
            let mut i = from;
            while i < units.len()
                invariant
                    from <= i <= units@.len(),
                    views(delete_prefixes@) == units@.subrange(from as int, i as int).map_values(|u: UnitArtifact| u.delete_prefix@),
                    views(keep@) == units@.subrange(from as int, i as int).map_values(|u: UnitArtifact| u.output_path@),
                    views(stamps@) == units@.subrange(from as int, i as int).map_values(|u: UnitArtifact| u.stamp_path@),
                decreases units@.len() - i,
            {
                let ghost sub0 = units@.subrange(from as int, i as int);
                let ghost u = units@[i as int];
                delete_prefixes.push(units[i].delete_prefix.clone());
                keep.push(units[i].output_path.clone());
                stamps.push(units[i].stamp_path.clone());
                proof {
                    let sub1 = units@.subrange(from as int, i + 1);
                    assert(sub1 =~= sub0.push(u));
                    assert(sub1.map_values(|u: UnitArtifact| u.delete_prefix@) =~= sub0.map_values(|u: UnitArtifact| u.delete_prefix@).push(u.delete_prefix@));
                    assert(sub1.map_values(|u: UnitArtifact| u.output_path@) =~= sub0.map_values(|u: UnitArtifact| u.output_path@).push(u.output_path@));
                    assert(sub1.map_values(|u: UnitArtifact| u.stamp_path@) =~= sub0.map_values(|u: UnitArtifact| u.stamp_path@).push(u.stamp_path@));
                    assert(views(delete_prefixes@) =~= sub1.map_values(|u: UnitArtifact| u.delete_prefix@));
                    assert(views(keep@) =~= sub1.map_values(|u: UnitArtifact| u.output_path@));
                    assert(views(stamps@) =~= sub1.map_values(|u: UnitArtifact| u.stamp_path@));
                }
                i = i + 1;
            }
            let ghost outs = views(keep@);
            keep.append(&mut stamps);
            proof {
                assert(units@.subrange(from as int, i as int) =~= units@.skip(from as int));
                assert(views(keep@) =~= outs + units@.skip(from as int).map_values(|u: UnitArtifact| u.stamp_path@));
            }
            Ok(UnitsPlan::Rebuild { from, delete_prefixes, keep })
        },
    }
}

/// A file of the output directory is removed after a rebuild when its name
/// starts with the prefix of a rebuilt unit and its path is not one of the
/// files just written.
pub open spec fn doomed(base: Seq<char>, path: Seq<char>, prefixes: Seq<Seq<char>>, keep: Seq<Seq<char>>) -> bool {
    (exists|i: int| 0 <= i < prefixes.len() && is_prefix(prefixes[i], base)) && !keep.contains(path)
}

/// The paths among `files` (base name, path) that are doomed, in order.
pub open spec fn deletions(files: Seq<(Seq<char>, Seq<char>)>, prefixes: Seq<Seq<char>>, keep: Seq<Seq<char>>) -> Seq<Seq<char>>
    decreases files.len(),
{
    if files.len() == 0 {
        Seq::empty()
    } else {
        let rest = deletions(files.drop_last(), prefixes, keep);
        if doomed(files.last().0, files.last().1, prefixes, keep) {
            rest.push(files.last().1)
        } else {
            rest
        }
    }
}

pub open spec fn file_views(files: Seq<(String, String)>) -> Seq<(Seq<char>, Seq<char>)> {
    files.map_values(|f: (String, String)| (f.0@, f.1@))
}

fn any_prefix(prefixes: &Vec<String>, base: &String) -> (r: bool)
    ensures
        r == exists|i: int| 0 <= i < prefixes@.len() && is_prefix(prefixes@[i]@, base@),
{
    let mut i: usize = 0;
    while i < prefixes.len()
        invariant
            i <= prefixes@.len(),
            forall|j: int| 0 <= j < i ==> !is_prefix(prefixes@[j]@, base@),
        decreases prefixes@.len() - i,
    {
        if starts_with(base.as_str(), prefixes[i].as_str()) {
            return true;
        }
        i = i + 1;
    }
    false
}

fn holds(list: &Vec<String>, s: &String) -> (r: bool)
    ensures
        r == views(list@).contains(s@),
{
    let mut i: usize = 0;
    while i < list.len()
        invariant
            i <= list@.len(),
            forall|j: int| 0 <= j < i ==> list@[j]@ != s@,
        decreases list@.len() - i,
    {
        if list[i] == *s {
            proof {
                assert(views(list@)[i as int] == s@);
            }
            return true;
        }
        i = i + 1;
    }
    proof {
        if views(list@).contains(s@) {
            let j = choose|j: int| 0 <= j < views(list@).len() && views(list@)[j] == s@;
            assert(list@[j]@ == s@);
        }
    }
    false
}

/// The stale artifacts to remove after a rebuild. Nothing is removed when
/// no file is named to keep: without the rebuilt files to protect, no
/// deletion is safe.
pub fn select_deletions(files: &Vec<(String, String)>, prefixes: &Vec<String>, keep: &Vec<String>) -> (r: Vec<String>)
    ensures
        keep@.len() == 0 ==> r@.len() == 0,
        keep@.len() > 0 ==> views(r@) == deletions(file_views(files@), views(prefixes@), views(keep@)),
{
    if keep.len() == 0 {
        return Vec::new();
    }
    let mut out: Vec<String> = Vec::new();
    let mut i: usize = 0;
    while i < files.len()
        invariant
            i <= files@.len(),
            views(out@) == deletions(file_views(files@.take(i as int)), views(prefixes@), views(keep@)),
        decreases files@.len() - i,
    {
        let ghost fv = file_views(files@.take(i as int + 1));
        proof {
            assert(fv.drop_last() =~= file_views(files@.take(i as int)));
            assert(fv.last() == (files@[i as int].0@, files@[i as int].1@));
            assert forall|j: int| 0 <= j < prefixes@.len() implies views(prefixes@)[j] == prefixes@[j]@ by {}
        }
        let base = &files[i].0;
        let path = &files[i].1;
        let hit = any_prefix(prefixes, base);
        let kept = holds(keep, path);
        proof {
            if hit {
                let j = choose|j: int| 0 <= j < prefixes@.len() && is_prefix(prefixes@[j]@, base@);
                assert(is_prefix(views(prefixes@)[j], base@));
            }
            if exists|j: int| 0 <= j < views(prefixes@).len() && is_prefix(views(prefixes@)[j], base@) {
                let j = choose|j: int| 0 <= j < views(prefixes@).len() && is_prefix(views(prefixes@)[j], base@);
                assert(is_prefix(prefixes@[j]@, base@));
            }
            assert(doomed(base@, path@, views(prefixes@), views(keep@)) == (hit && !kept));
        }
        if hit && !kept {
            out.push(path.clone());
            proof {
                assert(views(out@) =~= views(out@).drop_last().push(path@));
            }
        }
        i = i + 1;
    }
    proof {
        assert(files@.take(i as int) =~= files@);
    }
    out
}

// ---------------------------------------------------------------------------
// Dependencies of a guest module

/// The names in `required` that `declared` lacks, in order.
pub open spec fn missing(required: Seq<Seq<char>>, declared: Seq<Seq<char>>) -> Seq<Seq<char>>
    decreases required.len(),
{
    if required.len() == 0 {
        Seq::empty()
    } else {
        let rest = missing(required.drop_last(), declared);
        if declared.contains(required.last()) {
            rest
        } else {
            rest.push(required.last())
        }
    }
}

/// The required crates the consuming project does not declare.
pub fn missing_crates(required: &Vec<String>, declared: &Vec<String>) -> (r: Vec<String>)
    ensures
        views(r@) == missing(views(required@), views(declared@)),
{
    let mut out: Vec<String> = Vec::new();
    let mut i: usize = 0;
    while i < required.len()
        invariant
            i <= required@.len(),
            views(out@) == missing(views(required@.take(i as int)), views(declared@)),
        decreases required@.len() - i,
    {
        proof {
            assert(views(required@.take(i as int + 1)).drop_last() =~= views(required@.take(i as int)));
            assert(views(required@.take(i as int + 1)).last() == required@[i as int]@);
        }
        if !holds(declared, &required[i]) {
            out.push(required[i].clone());
            proof {
                assert(views(out@) =~= views(out@).drop_last().push(required@[i as int]@));
            }
        }
        i = i + 1;
    }
    proof {
        assert(required@.take(i as int) =~= required@);
    }
    out
}

/// The keys of the table `table` of a TOML document: `None` when the
/// document does not parse, no keys when it has no such table.
pub uninterp spec fn toml_table_keys(doc: Seq<char>, table: Seq<char>) -> Option<Seq<Seq<char>>>;

/// Relies on `toml`'s `Table` parser, `Table::get` and `Table::keys`: the
/// top-level table named `table`, and the keys it holds.
#[verifier::external_body]
fn table_keys(doc: &str, table: &str) -> (r: Option<Vec<String>>)
    ensures
        r matches Some(v) ==> toml_table_keys(doc@, table@) == Some(views(v@)),
        r is None ==> toml_table_keys(doc@, table@) is None,
{
    let parsed = doc.parse::<toml::Table>().ok()?;
    match parsed.get(table) {
        Some(toml::Value::Table(t)) => Some(t.keys().cloned().collect()),
        _ => Some(Vec::new()),
    }
}

/// Checks that the project whose manifest text is `manifest` declares every
/// crate a guest module requires. Nothing is required of a project without
/// requirements; otherwise an unreadable or unparsable manifest fails, and
/// so does any missing dependency, listed in order.
pub fn check_required_crates(required: &Vec<String>, manifest: Option<&str>) -> (r: Result<(), CompileError>)
    ensures
        required@.len() == 0 ==> r is Ok,
        required@.len() > 0 ==> match manifest {
            None => r is Err && r->Err_0 is ManifestReadFailed,
            Some(m) => match toml_table_keys(m@, "dependencies"@) {
                None => r is Err && r->Err_0 is ManifestReadFailed,
                Some(keys) => {
                    let gone = missing(views(required@), keys);
                    &&& gone.len() == 0 ==> r is Ok
                    &&& gone.len() > 0 ==> (r matches Err(CompileError::MissingExternCrate(v))
                        && views(v@) == gone)
                },
            },
        },
{
    if required.len() == 0 {
        return Ok(());
    }
    let text = match manifest {
        Some(m) => m,
        None => return Err(CompileError::ManifestReadFailed(String::new())),
    };
    let keys = match table_keys(text, "dependencies") {
        Some(k) => k,
        None => return Err(CompileError::ManifestReadFailed(text.to_owned())),
    };
    let gone = missing_crates(required, &keys);
    if gone.len() == 0 {
        Ok(())
    } else {
        Err(CompileError::MissingExternCrate(gone))
    }
}

/// The `--extern` value for a compiled dependency: the crate name as
/// given when the artifact's path contains it, otherwise with dashes
/// turned into underscores, then `=` and the path.
pub fn extern_arg(crate_name: &str, compiled: &str) -> (r: String)
    ensures
        r@ == (if contains(compiled@, crate_name@) {
            crate_name@
        } else {
            replace_char(crate_name@, '-', '_')
        }) + "="@ + compiled@,
{
    let mut r = if contains_str(compiled, crate_name) {
        crate_name.to_owned()
    } else {
        replace_chars(crate_name, '-', '_')
    };
    r.append("=");
    r.append(compiled);
    r
}

// ---------------------------------------------------------------------------
// Dependencies compiled for the guest target

/// The sidecar file that records where a compiled dependency lives.
pub fn extern_cache_file(output_dir: &str, dep: &str) -> (r: String)
    ensures
        r@ == output_dir@ + "/externloc_"@ + dep@ + ".txt"@,
{
    let mut r = output_dir.to_owned();
    r.append("/externloc_");
    r.append(dep);
    r.append(".txt");
    r
}

/// Unicode white space (the `White_Space` property), which `str::trim`
/// removes.
pub open spec fn is_ws(c: char) -> bool {
    let u = c as u32;
    (0x09 <= u <= 0x0d) || u == 0x20 || u == 0x85 || u == 0xa0 || u == 0x1680 || (0x2000 <= u
        <= 0x200a) || u == 0x2028 || u == 0x2029 || u == 0x202f || u == 0x205f || u == 0x3000
}

fn ws(c: char) -> (r: bool)
    ensures
        r == is_ws(c),
{
    let u = c as u32;
    (0x09 <= u && u <= 0x0d) || u == 0x20 || u == 0x85 || u == 0xa0 || u == 0x1680 || (0x2000 <= u
        && u <= 0x200a) || u == 0x2028 || u == 0x2029 || u == 0x202f || u == 0x205f || u == 0x3000
}

/// `s[lo..hi]` is `s` without leading and trailing white space.
pub open spec fn trimmed(s: Seq<char>, lo: int, hi: int) -> bool {
    &&& 0 <= lo <= hi <= s.len()
    &&& forall|i: int| 0 <= i < lo ==> is_ws(s[i])
    &&& forall|i: int| hi <= i < s.len() ==> is_ws(s[i])
    &&& lo < hi ==> !is_ws(s[lo]) && !is_ws(s[hi - 1])
}

/// Where a compiled dependency lives: the dependency directory and the
/// file name the compiler printed, without surrounding white space.
pub fn extern_location(deps_dir: &str, printed: &str) -> (r: String)
    ensures
        exists|lo: int, hi: int| trimmed(printed@, lo, hi) && r@ == deps_dir@ + "/"@ + printed@.subrange(lo, hi),
{
    let cs = crate::text::chars_of(printed);
    let mut lo: usize = 0;
    while lo < cs.len() && ws(cs[lo])
        invariant
            lo <= cs@.len(),
            cs@ == printed@,
            forall|i: int| 0 <= i < lo ==> is_ws(cs@[i]),
        decreases cs@.len() - lo,
    {
        lo = lo + 1;
    }
    let mut hi: usize = cs.len();
    while hi > lo && ws(cs[hi - 1])
        invariant
            lo <= hi <= cs@.len(),
            cs@ == printed@,
            forall|i: int| 0 <= i < lo ==> is_ws(cs@[i]),
            forall|i: int| hi <= i < cs@.len() ==> is_ws(cs@[i]),
            lo < cs@.len() ==> !is_ws(cs@[lo as int]),
        decreases hi,
    {
        hi = hi - 1;
    }
    let mut name: Vec<char> = Vec::new();
    let mut i = lo;
    while i < hi
        invariant
            lo <= i <= hi <= cs@.len(),
            name@ == cs@.subrange(lo as int, i as int),
        decreases hi - i,
    {
        name.push(cs[i]);
        i = i + 1;
        proof {
            assert(name@ =~= cs@.subrange(lo as int, i as int));
        }
    }
    let mut r = deps_dir.to_owned();
    r.append("/");
    r.append(crate::text::string_of(name.as_slice()).as_str());
    proof {
        assert(trimmed(printed@, lo as int, hi as int));
    }
    r
}

/// What to do about a dependency compiled for the guest target.
pub enum ExternStep {
    /// Its recorded library still exists: use it.
    Reuse(String),
    /// Compile it; `drop_record` asks to remove the stale sidecar first.
    Compile { drop_record: bool },
}

/// Decides whether a dependency is compiled again, given the library path
/// its sidecar file records, if that library still exists, and whether a
/// fresh compile is forced.
pub fn extern_step(recorded: Option<String>, force: bool) -> (r: ExternStep)
    ensures
        recorded is None ==> r == (ExternStep::Compile { drop_record: false }),
        recorded is Some && force ==> r == (ExternStep::Compile { drop_record: true }),
        recorded matches Some(p) ==> !force ==> (r matches ExternStep::Reuse(q) && q@ == p@),
{
    match recorded {
        None => ExternStep::Compile { drop_record: false },
        Some(p) => if force {
            ExternStep::Compile { drop_record: true }
        } else {
            ExternStep::Reuse(p)
        },
    }
}

} // verus!
