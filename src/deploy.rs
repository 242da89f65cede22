//! The generated deployment script: five sections in a fixed order, each
//! holding the command lines that annotated items contribute, every
//! contribution bracketed by marker comments naming its module and item.
use vstd::prelude::*;
use crate::text::{contains, contains_str};

verus! {

/// The sections of the script, in script order.
#[derive(Clone, Copy, Debug, PartialEq, Eq, Structural)]
pub enum Section {
    PreBuild,
    Build,
    Package,
    Deploy,
    PostDeploy,
}

pub open spec fn section_index(s: Section) -> nat {
    match s {
        Section::PreBuild => 0,
        Section::Build => 1,
        Section::Package => 2,
        Section::Deploy => 3,
        Section::PostDeploy => 4,
    }
}

pub open spec fn section_header(i: nat) -> Seq<char> {
    if i == 0 {
        "# pre-build"@
    } else if i == 1 {
        "# build"@
    } else if i == 2 {
        "# package"@
    } else if i == 3 {
        "# deploy"@
    } else {
        "# post-deploy"@
    }
}

/// The command lines one annotated item contributes to one section.
pub struct Contribution {
    pub module: String,
    pub item: String,
    pub section: Section,
    pub lines: Vec<String>,
}

/// Why a contributed line was refused.
pub enum CommandError {
    /// The line holds a reserved marker.
    ReservedMarker { module: String, item: String, line: String },
    /// The line holds a line break.
    Newline { module: String, item: String, line: String },
    /// The line is empty once surrounding whitespace is removed.
    Blank { module: String, item: String, line: String },
}

pub open spec fn begin_marker() -> Seq<char> {
    "#>>> "@
}

pub open spec fn end_marker() -> Seq<char> {
    "#<<< "@
}

pub open spec fn is_blank_char(c: char) -> bool {
    c == ' ' || c == '\t' || c == '\r' || c == '\n'
}

/// A line may stand in the script: no marker, no line break, not blank.
pub open spec fn acceptable(line: Seq<char>) -> bool {
    &&& !contains(line, begin_marker())
    &&& !contains(line, end_marker())
    &&& !line.contains('\n')
    &&& exists|i: int| 0 <= i < line.len() && !is_blank_char(line[i])
}

fn check_line(module: &String, item: &String, line: &String) -> (r: Result<(), CommandError>)
    ensures
        r is Ok <==> acceptable(line@),
{
    if contains_str(line.as_str(), "#>>> ") || contains_str(line.as_str(), "#<<< ") {
        return Err(CommandError::ReservedMarker { module: module.clone(), item: item.clone(), line: line.clone() });
    }
    let cs = crate::text::chars_of(line.as_str());
    let mut i: usize = 0;
    let mut blank = true;
    while i < cs.len()
        invariant
            i <= cs@.len(),
            cs@ == line@,
            !line@.take(i as int).contains('\n'),
            blank == forall|j: int| 0 <= j < i ==> is_blank_char(cs@[j]),
        decreases cs@.len() - i,
    {
        if cs[i] == '\n' {
            proof {
                assert(line@[i as int] == '\n');
            }
            return Err(CommandError::Newline { module: module.clone(), item: item.clone(), line: line.clone() });
        }
        if !(cs[i] == ' ' || cs[i] == '\t' || cs[i] == '\r' || cs[i] == '\n') {
            blank = false;
        }
        i = i + 1;
        proof {
            assert forall|j: int| 0 <= j < i && line@.take(i as int)[j] == '\n' implies false by {
                assert(line@.take(i as int)[j] == line@[j]);
                if j < i - 1 {
                    assert(line@.take(i as int - 1)[j] == line@[j]);
                }
            }
        }
    }
    proof {
        assert(line@.take(i as int) =~= line@);
    }
    if blank {
        return Err(CommandError::Blank { module: module.clone(), item: item.clone(), line: line.clone() });
    }
    Ok(())
}

/// The text of one contribution: its markers around its lines.
pub open spec fn block(c: Contribution) -> Seq<char> {
    begin_marker() + c.module@ + "::"@ + c.item@ + "\n"@ + joined_lines(c.lines@) + end_marker() + c.module@
        + "::"@ + c.item@ + "\n"@
}

pub open spec fn joined_lines(lines: Seq<String>) -> Seq<char>
    decreases lines.len(),
{
    if lines.len() == 0 {
        Seq::empty()
    } else {
        joined_lines(lines.drop_last()) + lines.last()@ + "\n"@
    }
}

/// The blocks of the contributions to section `i`, in call order.
pub open spec fn section_blocks(cs: Seq<Contribution>, i: nat) -> Seq<char>
    decreases cs.len(),
{
    if cs.len() == 0 {
        Seq::empty()
    } else if section_index(cs.last().section) == i {
        section_blocks(cs.drop_last(), i) + block(cs.last())
    } else {
        section_blocks(cs.drop_last(), i)
    }
}

/// The script: the five sections in order, each a header line followed by
/// its blocks.
pub open spec fn script(cs: Seq<Contribution>, upto: nat) -> Seq<char>
    decreases upto,
{
    if upto == 0 {
        Seq::empty()
    } else {
        script(cs, (upto - 1) as nat) + section_header((upto - 1) as nat) + "\n"@ + section_blocks(
            cs,
            (upto - 1) as nat,
        )
    }
}

fn header_text(i: usize) -> (r: &'static str)
    requires
        i < 5,
    ensures
        r@ == section_header(i as nat),
{
    if i == 0 {
        "# pre-build"
    } else if i == 1 {
        "# build"
    } else if i == 2 {
        "# package"
    } else if i == 3 {
        "# deploy"
    } else {
        "# post-deploy"
    }
}

fn index_of(s: Section) -> (r: usize)
    ensures
        r == section_index(s),
{
    match s {
        Section::PreBuild => 0,
        Section::Build => 1,
        Section::Package => 2,
        Section::Deploy => 3,
        Section::PostDeploy => 4,
    }
}

fn push_block(out: &mut String, c: &Contribution)
    ensures
        final(out)@ == old(out)@ + block(*c),
{
    let ghost start = out@;
    out.append("#>>> ");
    out.append(c.module.as_str());
    out.append("::");
    out.append(c.item.as_str());
    out.append("\n");
    let ghost head = out@;
    let mut k: usize = 0;
    while k < c.lines.len()
        invariant
            k <= c.lines@.len(),
            out@ == head + joined_lines(c.lines@.take(k as int)),
        decreases c.lines@.len() - k,
    {
        proof {
            assert(c.lines@.take(k as int + 1).drop_last() =~= c.lines@.take(k as int));
        }
        out.append(c.lines[k].as_str());
        out.append("\n");
        k = k + 1;
    }
    proof {
        assert(c.lines@.take(k as int) =~= c.lines@);
    }
    out.append("#<<< ");
    out.append(c.module.as_str());
    out.append("::");
    out.append(c.item.as_str());
    out.append("\n");
}

/// The deployment script of a session's contributions, or the first line
/// (in call order) that may not stand in it.
pub fn render_script(cs: &Vec<Contribution>) -> (r: Result<String, CommandError>)
    ensures
        (forall|k: int, j: int| 0 <= k < cs@.len() && 0 <= j < cs@[k].lines@.len() ==> acceptable(#[trigger] cs@[k].lines@[j]@)) <==> r is Ok,
        r matches Ok(s) ==> s@ == script(cs@, 5),
{
    let mut k: usize = 0;
    while k < cs.len()
        invariant
            k <= cs@.len(),
            forall|a: int, j: int| 0 <= a < k && 0 <= j < cs@[a].lines@.len() ==> acceptable(#[trigger] cs@[a].lines@[j]@),
        decreases cs@.len() - k,
    {
        let c = &cs[k];
        let mut j: usize = 0;
        while j < c.lines.len()
            invariant
                k < cs@.len(),
                *c == cs@[k as int],
                j <= c.lines@.len(),
                forall|a: int, b: int| 0 <= a < k && 0 <= b < cs@[a].lines@.len() ==> acceptable(#[trigger] cs@[a].lines@[b]@),
                forall|b: int| 0 <= b < j ==> acceptable(#[trigger] c.lines@[b]@),
            decreases c.lines@.len() - j,
        {
            match check_line(&c.module, &c.item, &c.lines[j]) {
                Ok(()) => {},
                Err(e) => return Err(e),
            }
            j = j + 1;
        }
        k = k + 1;
    }
    let mut out = String::new();
    let mut i: usize = 0;
    while i < 5
        invariant
            i <= 5,
            out@ == script(cs@, i as nat),
        decreases 5 - i,
    {
        out.append(header_text(i));
        out.append("\n");
        let ghost head = out@;
        let mut k: usize = 0;
        while k < cs.len()
            invariant
                i < 5,
                k <= cs@.len(),
                out@ == head + section_blocks(cs@.take(k as int), i as nat),
            decreases cs@.len() - k,
        {
            proof {
                assert(cs@.take(k as int + 1).drop_last() =~= cs@.take(k as int));
            }
            if index_of(cs[k].section) == i {
                push_block(&mut out, &cs[k]);
            }
            k = k + 1;
        }
        proof {
            assert(cs@.take(k as int) =~= cs@);
        }
        i = i + 1;
    }
    Ok(out)
}

} // verus!
