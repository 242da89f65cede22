//! Shared output files: lines that many guest runs contribute to one file,
//! grouped under labels. Labels are kept in ascending order; within a label
//! lines keep the order in which they were contributed.
use vstd::prelude::*;
use crate::annotate::{FileOut, SharedOutputEntry};
use crate::text::{
    chars_of, contains, contains_str, find_from, first_at, is_prefix, lemma_first_at, occurs_at,
    starts_with, string_of, views,
};

verus! {

/// Character-wise lexicographic order, the order of `str` comparison.
pub open spec fn text_lt(a: Seq<char>, b: Seq<char>) -> bool
    decreases a.len(),
{
    if a.len() == 0 {
        b.len() > 0
    } else if b.len() == 0 {
        false
    } else if a[0] != b[0] {
        (a[0] as u32) < (b[0] as u32)
    } else {
        text_lt(a.drop_first(), b.drop_first())
    }
}

pub proof fn lemma_text_lt_total(a: Seq<char>, b: Seq<char>)
    ensures
        a == b || text_lt(a, b) || text_lt(b, a),
        !(text_lt(a, b) && text_lt(b, a)),
        !text_lt(a, a),
    decreases a.len(),
{
    if a.len() > 0 && b.len() > 0 {
        lemma_text_lt_total(a.drop_first(), b.drop_first());
        if a[0] == b[0] && a.drop_first() == b.drop_first() {
            assert(a =~= seq![a[0]] + a.drop_first());
            assert(b =~= seq![b[0]] + b.drop_first());
        }
        if a[0] != b[0] {
            assert((a[0] as u32) != (b[0] as u32)) by {
                vstd::utf8::char_u32_cast(a[0], a[0] as u32);
                vstd::utf8::char_u32_cast(b[0], b[0] as u32);
            }
        }
    } else if a.len() == 0 && b.len() == 0 {
        assert(a =~= b);
    }
    if a.len() > 0 {
        lemma_text_lt_total(a.drop_first(), a.drop_first());
    }
}

pub proof fn lemma_text_lt_trans(a: Seq<char>, b: Seq<char>, c: Seq<char>)
    requires
        text_lt(a, b),
        text_lt(b, c),
    ensures
        text_lt(a, c),
    decreases a.len(),
{
    if a.len() > 0 && b.len() > 0 && c.len() > 0 && a[0] == b[0] && b[0] == c[0] {
        lemma_text_lt_trans(a.drop_first(), b.drop_first(), c.drop_first());
    }
}

/// Whether `a` sorts before `b`.
pub fn lt(a: &String, b: &String) -> (r: bool)
    ensures
        r == text_lt(a@, b@),
{
    let ac = chars_of(a.as_str());
    let bc = chars_of(b.as_str());
    let mut i: usize = 0;
    proof {
        assert(ac@.skip(0) =~= ac@);
        assert(bc@.skip(0) =~= bc@);
    }
    while i < ac.len() && i < bc.len() && ac[i] == bc[i]
        invariant
            i <= ac@.len(),
            i <= bc@.len(),
            text_lt(ac@, bc@) == text_lt(ac@.skip(i as int), bc@.skip(i as int)),
        decreases ac@.len() - i,
    {
        proof {
            assert(ac@.skip(i as int).drop_first() =~= ac@.skip(i as int + 1));
            assert(bc@.skip(i as int).drop_first() =~= bc@.skip(i as int + 1));
        }
        i = i + 1;
    }
    proof {
        assert(ac@.skip(i as int).len() == ac@.len() - i);
        if i < ac@.len() && i < bc@.len() {
            assert(ac@.skip(i as int)[0] == ac@[i as int]);
            assert(bc@.skip(i as int)[0] == bc@[i as int]);
        }
    }
    if i == ac.len() {
        i < bc.len()
    } else if i == bc.len() {
        false
    } else {
        (ac[i] as u32) < (bc[i] as u32)
    }
}

/// The lines of one label of a shared file.
pub struct Section {
    pub label: String,
    pub lines: Vec<String>,
}

/// A shared file: its name and its labelled sections.
pub struct SharedFile {
    pub name: String,
    pub sections: Vec<Section>,
}

/// Labels strictly ascending.
pub open spec fn sorted_sections(s: Seq<Section>) -> bool {
    forall|i: int, j: int| 0 <= i < j < s.len() ==> text_lt(s[i].label@, s[j].label@)
}

/// Some section of `s` has the label `l`.
pub open spec fn has_label(s: Seq<Section>, l: Seq<char>) -> bool {
    exists|j: int| 0 <= j < s.len() && s[j].label@ == l
}

/// The lines under `label`, none when the label is absent.
pub open spec fn section_lines(s: Seq<Section>, label: Seq<char>) -> Seq<Seq<char>> {
    if exists|j: int| 0 <= j < s.len() && s[j].label@ == label {
        views(s[choose|j: int| 0 <= j < s.len() && s[j].label@ == label].lines@)
    } else {
        Seq::empty()
    }
}

/// The first line that contains `pat`.
pub open spec fn first_holder(lines: Seq<Seq<char>>, pat: Seq<char>) -> Option<int> {
    if exists|k: int| 0 <= k < lines.len() && contains(lines[k], pat) {
        Some(
            choose|k: int|
                0 <= k < lines.len() && contains(lines[k], pat) && forall|j: int|
                    0 <= j < k ==> !contains(lines[j], pat),
        )
    } else {
        None
    }
}

/// `s` with `text` inserted right after the first occurrence of `pat`.
pub open spec fn insert_after(s: Seq<char>, pat: Seq<char>, text: Seq<char>) -> Seq<char> {
    let p = first_at(s, pat) + pat.len();
    s.subrange(0, p) + text + s.subrange(p, s.len() as int)
}

/// The lines of a label after one contribution. A unique line is added
/// only when absent; a line with a continuation is a search string whose
/// first holder gets the continuation inserted right after the first
/// occurrence, or, when no line holds it, the two are added joined; any
/// other line is appended.
pub open spec fn after_entry(lines: Seq<Seq<char>>, unique: bool, line: Seq<char>, after: Option<Seq<char>>) -> Seq<Seq<char>> {
    if unique {
        if lines.contains(line) {
            lines
        } else {
            lines.push(line)
        }
    } else {
        match after {
            Some(a) => match first_holder(lines, line) {
                Some(k) => lines.update(k, insert_after(lines[k], line, a)),
                None => lines.push(line + a),
            },
            None => lines.push(line),
        }
    }
}

/// The text of a shared file: each label on its own line followed by its
/// lines, labels in ascending order.
pub open spec fn rendered(s: Seq<Section>) -> Seq<char>
    decreases s.len(),
{
    if s.len() == 0 {
        Seq::empty()
    } else {
        rendered(s.drop_last()) + s.last().label@ + "\n"@ + lines_text(views(s.last().lines@))
    }
}

pub open spec fn lines_text(lines: Seq<Seq<char>>) -> Seq<char>
    decreases lines.len(),
{
    if lines.len() == 0 {
        Seq::empty()
    } else {
        lines_text(lines.drop_last()) + lines.last() + "\n"@
    }
}

proof fn lemma_first_holder(lines: Seq<Seq<char>>, pat: Seq<char>, k: int)
    requires
        0 <= k < lines.len(),
        contains(lines[k], pat),
        forall|j: int| 0 <= j < k ==> !contains(lines[j], pat),
    ensures
        first_holder(lines, pat) == Some(k),
{
    let c = choose|c: int|
        0 <= c < lines.len() && contains(lines[c], pat) && forall|j: int|
            0 <= j < c ==> !contains(lines[j], pat);
    assert(0 <= c < lines.len() && contains(lines[c], pat) && forall|j: int|
        0 <= j < c ==> !contains(lines[j], pat));
    if c < k {
        assert(!contains(lines[c], pat));
    }
    if k < c {
        assert(!contains(lines[k], pat));
    }
}

fn index_of_line(lines: &Vec<String>, line: &String) -> (r: Option<usize>)
    ensures
        r matches Some(i) ==> i < lines@.len() && lines@[i as int]@ == line@,
        r is None ==> !views(lines@).contains(line@),
{
    let mut i: usize = 0;
    while i < lines.len()
        invariant
            i <= lines@.len(),
            forall|j: int| 0 <= j < i ==> lines@[j]@ != line@,
        decreases lines@.len() - i,
    {
        if lines[i] == *line {
            return Some(i);
        }
        i = i + 1;
    }
    proof {
        if views(lines@).contains(line@) {
            let j = choose|j: int| 0 <= j < views(lines@).len() && views(lines@)[j] == line@;
            assert(lines@[j]@ == line@);
        }
    }
    None
}

/// Applies one contribution to a label's lines.
fn apply_to_lines(lines: &mut Vec<String>, unique: bool, line: &String, after: &Option<String>)
    ensures
        views(final(lines)@) == after_entry(
            views(old(lines)@),
            unique,
            line@,
            match after {
                Some(a) => Some(a@),
                None => None,
            },
        ),
{
    let ghost before = views(lines@);
    if unique {
        match index_of_line(lines, line) {
            Some(i) => {
                proof {
                    assert(views(lines@)[i as int] == line@);
                }
            },
            None => {
                lines.push(line.clone());
                proof {
                    assert(views(lines@) =~= before.push(line@));
                }
            },
        }
        return;
    }
    match after {
        Some(a) => {
            let pat = chars_of(line.as_str());
            let mut k: usize = 0;
            while k < lines.len()
                invariant
                    k <= lines@.len(),
                    !unique,
                    before == views(old(lines)@),
                    match after {
                        Some(x) => x@ == a@,
                        None => false,
                    },
                    views(lines@) == before,
                    pat@ == line@,
                    forall|j: int| 0 <= j < k ==> !contains(before[j], line@),
                decreases lines@.len() - k,
            {
                let cs = chars_of(lines[k].as_str());
                let ncs = cs.len();
                match find_from(&cs, &pat, 0) {
                    Some(p) => {
                        let ghost holder = before[k as int];
                        proof {
                            assert(holder == lines@[k as int]@);
                            assert(contains(holder, line@));
                            lemma_first_holder(before, line@, k as int);
                            lemma_first_at(holder, line@, p as int);
                        }
                        let end = p + pat.len();
                        let mut joined: Vec<char> = Vec::new();
                        let mut i: usize = 0;
                        while i < end
                            invariant
                                i <= end <= cs@.len(),
                                joined@ == cs@.subrange(0, i as int),
                            decreases end - i,
                        {
                            joined.push(cs[i]);
                            i = i + 1;
                            proof {
                                assert(joined@ =~= cs@.subrange(0, i as int));
                            }
                        }
                        let ac = chars_of(a.as_str());
                        let mut t: usize = 0;
                        while t < ac.len()
                            invariant
                                t <= ac@.len(),
                                joined@ == cs@.subrange(0, end as int) + ac@.take(t as int),
                            decreases ac@.len() - t,
                        {
                            joined.push(ac[t]);
                            t = t + 1;
                            proof {
                                assert(joined@ =~= cs@.subrange(0, end as int) + ac@.take(t as int));
                            }
                        }
                        let mut i: usize = end;
                        while i < cs.len()
                            invariant
                                end <= i <= cs@.len(),
                                joined@ == cs@.subrange(0, end as int) + ac@ + cs@.subrange(end as int, i as int),
                            decreases cs@.len() - i,
                        {
                            proof {
                                assert(ac@.take(ac@.len() as int) =~= ac@);
                            }
                            joined.push(cs[i]);
                            i = i + 1;
                            proof {
                                assert(joined@ =~= cs@.subrange(0, end as int) + ac@ + cs@.subrange(end as int, i as int));
                            }
                        }
                        proof {
                            assert(ac@.take(ac@.len() as int) =~= ac@);
                        }
                        let updated = string_of(joined.as_slice());
                        lines.set(k, updated);
                        proof {
                            assert(updated@ == insert_after(holder, line@, a@));
                            assert(views(lines@) =~= before.update(k as int, insert_after(holder, line@, a@)));
                            assert(after_entry(before, unique, line@, Some(a@)) == before.update(k as int, insert_after(holder, line@, a@)));
                        }
                        return;
                    },
                    None => {
                        proof {
                            assert(lines@[k as int]@ == before[k as int]);
                        }
                    },
                }
                k = k + 1;
            }
            let mut joined = line.clone();
            joined.append(a.as_str());
            lines.push(joined);
            proof {
                assert(first_holder(before, line@) is None);
                assert(views(lines@) =~= before.push(line@ + a@));
            }
        },
        None => {
            lines.push(line.clone());
            proof {
                assert(views(lines@) =~= before.push(line@));
            }
        },
    }
}

pub open spec fn opt_view(o: Option<String>) -> Option<Seq<char>> {
    match o {
        Some(a) => Some(a@),
        None => None,
    }
}

proof fn lemma_section_lines_at(s: Seq<Section>, j: int)
    requires
        sorted_sections(s),
        0 <= j < s.len(),
    ensures
        section_lines(s, s[j].label@) == views(s[j].lines@),
{
    let l = s[j].label@;
    let c = choose|c: int| 0 <= c < s.len() && s[c].label@ == l;
    assert(0 <= c < s.len() && s[c].label@ == l);
    lemma_text_lt_total(l, l);
    if c < j {
        assert(text_lt(s[c].label@, s[j].label@));
    }
    if j < c {
        assert(text_lt(s[j].label@, s[c].label@));
    }
}

/// Sections holding the same labels with the same lines give the same
/// lines for every label.
proof fn lemma_same_lines(s: Seq<Section>, t: Seq<Section>, l: Seq<char>)
    requires
        sorted_sections(s),
        sorted_sections(t),
        forall|j: int| 0 <= j < s.len() && s[j].label@ == l ==> exists|k: int| 0 <= k < t.len() && t[k].label@ == l && views(t[k].lines@) == views(s[j].lines@),
        forall|k: int| 0 <= k < t.len() && t[k].label@ == l ==> exists|j: int| 0 <= j < s.len() && s[j].label@ == l,
    ensures
        section_lines(s, l) == section_lines(t, l),
{
    if exists|j: int| 0 <= j < s.len() && s[j].label@ == l {
        let j = choose|j: int| 0 <= j < s.len() && s[j].label@ == l;
        lemma_section_lines_at(s, j);
        let k = choose|k: int| 0 <= k < t.len() && t[k].label@ == l && views(t[k].lines@) == views(s[j].lines@);
        lemma_section_lines_at(t, k);
    } else {
        if exists|k: int| 0 <= k < t.len() && t[k].label@ == l {
            let k = choose|k: int| 0 <= k < t.len() && t[k].label@ == l;
            assert(exists|j: int| 0 <= j < s.len() && s[j].label@ == l);
        }
    }
}

impl SharedFile {
    pub open spec fn wf(&self) -> bool {
        sorted_sections(self.sections@)
    }

    /// An empty shared file.
    pub fn new(name: String) -> (r: SharedFile)
        ensures
            r.name == name,
            r.sections@.len() == 0,
            r.wf(),
    {
        SharedFile { name, sections: Vec::new() }
    }

    /// Applies one contribution under `label`, adding the label in order
    /// when it is new. Other labels are left as they are.
    pub fn add(&mut self, label: &String, unique: bool, line: &String, after: &Option<String>)
        requires
            old(self).wf(),
        ensures
            final(self).wf(),
            final(self).name == old(self).name,
            section_lines(final(self).sections@, label@) == after_entry(
                section_lines(old(self).sections@, label@),
                unique,
                line@,
                opt_view(*after),
            ),
            forall|l: Seq<char>|
                l != label@ ==> section_lines(final(self).sections@, l) == section_lines(
                    old(self).sections@,
                    l,
                ),
            forall|l: Seq<char>|
                has_label(final(self).sections@, l) <==> has_label(old(self).sections@, l) || l
                    == label@,
    {
        let ghost s0 = self.sections@;
        let mut j: usize = 0;
        while j < self.sections.len()
            invariant
                j <= self.sections@.len(),
                self.sections@ == s0,
                s0 == old(self).sections@,
                self.name == old(self).name,
                sorted_sections(s0),
                forall|k: int| 0 <= k < j ==> text_lt(s0[k].label@, label@),
            ensures
                j <= s0.len(),
                self.sections@ == s0,
                self.name == old(self).name,
                forall|k: int| 0 <= k < j ==> text_lt(s0[k].label@, label@),
                j == s0.len() || text_lt(label@, s0[j as int].label@),
            decreases self.sections@.len() - j,
        {
            if self.sections[j].label == *label {
                let mut sec = self.sections.remove(j);
                apply_to_lines(&mut sec.lines, unique, line, after);
                self.sections.insert(j, sec);
                proof {
                    let s1 = self.sections@;
                    assert(s1 =~= s0.update(j as int, s1[j as int]));
                    assert(s1[j as int].label@ == label@);
                    assert(sorted_sections(s1));
                    lemma_section_lines_at(s0, j as int);
                    lemma_section_lines_at(s1, j as int);
                    assert forall|l: Seq<char>| l != label@ implies section_lines(s1, l) == section_lines(s0, l) by {
                        assert forall|k: int| 0 <= k < s0.len() && s0[k].label@ == l implies exists|k2: int| 0 <= k2 < s1.len() && s1[k2].label@ == l && views(s1[k2].lines@) == views(s0[k].lines@) by {
                            assert(k != j);
                            assert(s1[k] == s0[k]);
                        }
                        assert forall|k: int| 0 <= k < s1.len() && s1[k].label@ == l implies exists|k2: int| 0 <= k2 < s0.len() && s0[k2].label@ == l by {
                            assert(k != j);
                            assert(s1[k] == s0[k]);
                        }
                        lemma_same_lines(s1, s0, l);
                    }
                    assert forall|l: Seq<char>| has_label(s1, l) <==> has_label(s0, l) || l == label@ by {
                        if has_label(s1, l) {
                            let k = choose|k: int| 0 <= k < s1.len() && s1[k].label@ == l;
                            if k != j {
                                assert(s1[k] == s0[k]);
                            }
                        }
                        if has_label(s0, l) {
                            let k = choose|k: int| 0 <= k < s0.len() && s0[k].label@ == l;
                            if k != j {
                                assert(s1[k] == s0[k]);
                            }
                        }
                    }
                }
                return;
            }
            if lt(label, &self.sections[j].label) {
                break;
            }
            proof {
                lemma_text_lt_total(s0[j as int].label@, label@);
            }
            j = j + 1;
        }
        let mut lines: Vec<String> = Vec::new();
        apply_to_lines(&mut lines, unique, line, after);
        let ghost new_lines = views(lines@);
        proof {
            assert forall|k: int| 0 <= k < s0.len() implies s0[k].label@ != label@ by {
                if k < j {
                    lemma_text_lt_total(s0[k].label@, label@);
                } else {
                    lemma_text_lt_total(label@, s0[j as int].label@);
                    if k > j {
                        lemma_text_lt_trans(label@, s0[j as int].label@, s0[k].label@);
                    }
                    lemma_text_lt_total(label@, label@);
                }
            }
            assert(section_lines(s0, label@) =~= Seq::<Seq<char>>::empty());
            assert(views(Seq::<String>::empty()) =~= Seq::<Seq<char>>::empty());
        }
        self.sections.insert(j, Section { label: label.clone(), lines });
        proof {
            let s1 = self.sections@;
            assert(s1 =~= s0.insert(j as int, s1[j as int]));
            assert forall|a: int, b: int| 0 <= a < b < s1.len() implies text_lt(s1[a].label@, s1[b].label@) by {
                if b == j {
                    assert(text_lt(s0[a].label@, label@));
                } else if a == j {
                    assert(text_lt(label@, s0[j as int].label@));
                    if b - 1 > j {
                        lemma_text_lt_trans(label@, s0[j as int].label@, s0[b - 1].label@);
                    }
                } else if a < j && b > j {
                    assert(s1[b] == s0[b - 1]);
                } else if a > j {
                    assert(s1[a] == s0[a - 1]);
                    assert(s1[b] == s0[b - 1]);
                }
            }
            assert(sorted_sections(s1));
            lemma_section_lines_at(s1, j as int);
            assert forall|l: Seq<char>| l != label@ implies section_lines(s1, l) == section_lines(s0, l) by {
                assert forall|k: int| 0 <= k < s0.len() && s0[k].label@ == l implies exists|k2: int| 0 <= k2 < s1.len() && s1[k2].label@ == l && views(s1[k2].lines@) == views(s0[k].lines@) by {
                    if k < j {
                        assert(s1[k] == s0[k]);
                    } else {
                        assert(s1[k + 1] == s0[k]);
                    }
                }
                assert forall|k: int| 0 <= k < s1.len() && s1[k].label@ == l implies exists|k2: int| 0 <= k2 < s0.len() && s0[k2].label@ == l by {
                    if k < j {
                        assert(s1[k] == s0[k]);
                    } else if k > j {
                        assert(s1[k] == s0[k - 1]);
                    }
                }
                lemma_same_lines(s1, s0, l);
            }
            assert forall|l: Seq<char>| has_label(s1, l) <==> has_label(s0, l) || l == label@ by {
                if has_label(s1, l) {
                    let k = choose|k: int| 0 <= k < s1.len() && s1[k].label@ == l;
                    if k < j {
                        assert(s1[k] == s0[k]);
                    } else if k > j {
                        assert(s1[k] == s0[k - 1]);
                    }
                }
                if has_label(s0, l) {
                    let k = choose|k: int| 0 <= k < s0.len() && s0[k].label@ == l;
                    if k < j {
                        assert(s1[k] == s0[k]);
                    } else {
                        assert(s1[k + 1] == s0[k]);
                    }
                }
            }
        }
    }
}

impl SharedFile {
    /// The text of this file.
    pub fn render(&self) -> (r: String)
        ensures
            r@ == rendered(self.sections@),
    {
        let mut out = String::new();
        let mut k: usize = 0;
        while k < self.sections.len()
            invariant
                k <= self.sections@.len(),
                out@ == rendered(self.sections@.take(k as int)),
            decreases self.sections@.len() - k,
        {
            let sec = &self.sections[k];
            let ghost before = out@;
            out.append(sec.label.as_str());
            out.append("\n");
            let mut i: usize = 0;
            while i < sec.lines.len()
                invariant
                    i <= sec.lines@.len(),
                    out@ == before + sec.label@ + "\n"@ + lines_text(views(sec.lines@.take(i as int))),
                decreases sec.lines@.len() - i,
            {
                proof {
                    assert(views(sec.lines@.take(i as int + 1)).drop_last() =~= views(sec.lines@.take(i as int)));
                }
                out.append(sec.lines[i].as_str());
                out.append("\n");
                i = i + 1;
            }
            proof {
                assert(sec.lines@.take(i as int) =~= sec.lines@);
                assert(self.sections@.take(k as int + 1).drop_last() =~= self.sections@.take(k as int));
            }
            k = k + 1;
        }
        proof {
            assert(self.sections@.take(k as int) =~= self.sections@);
        }
        out
    }
}

/// A contribution as plain values: file, label, unique, line, continuation.
pub open spec fn entry_view(e: SharedOutputEntry) -> (Seq<char>, Seq<char>, bool, Seq<char>, Option<Seq<char>>) {
    (e.filename@, e.label@, e.unique, e.line@, opt_view(e.after))
}

/// The lines under `label` of the file `file` after the contributions `es`
/// in order, starting from `lines`.
pub open spec fn fold_entries(
    lines: Seq<Seq<char>>,
    es: Seq<SharedOutputEntry>,
    file: Seq<char>,
    label: Seq<char>,
) -> Seq<Seq<char>>
    decreases es.len(),
{
    if es.len() == 0 {
        lines
    } else {
        let prev = fold_entries(lines, es.drop_last(), file, label);
        let e = entry_view(es.last());
        if e.0 == file && e.1 == label {
            after_entry(prev, e.2, e.3, e.4)
        } else {
            prev
        }
    }
}

/// The lines of the plain contributions (neither unique nor continued)
/// to `file` under `label`, in call order.
pub open spec fn plain_lines(es: Seq<SharedOutputEntry>, file: Seq<char>, label: Seq<char>) -> Seq<Seq<char>>
    decreases es.len(),
{
    if es.len() == 0 {
        Seq::empty()
    } else {
        let e = es.last();
        if e.filename@ == file && e.label@ == label {
            plain_lines(es.drop_last(), file, label).push(e.line@)
        } else {
            plain_lines(es.drop_last(), file, label)
        }
    }
}

/// Plain contributions keep their call order within a label, whatever
/// other labels and files they are interleaved with: the label's lines
/// grow by exactly its own lines, in order.
pub proof fn lemma_plain_call_order(lines: Seq<Seq<char>>, es: Seq<SharedOutputEntry>, file: Seq<char>, label: Seq<char>)
    requires
        forall|k: int| 0 <= k < es.len() ==> !es[k].unique && es[k].after is None,
    ensures
        fold_entries(lines, es, file, label) == lines + plain_lines(es, file, label),
    decreases es.len(),
{
    if es.len() == 0 {
        assert(lines + Seq::<Seq<char>>::empty() =~= lines);
    } else {
        lemma_plain_call_order(lines, es.drop_last(), file, label);
        let e = es.last();
        if e.filename@ == file && e.label@ == label {
            assert(lines + plain_lines(es.drop_last(), file, label).push(e.line@) =~= (lines
                + plain_lines(es.drop_last(), file, label)).push(e.line@));
        }
    }
}

/// Some contribution of `es` goes to `file` under `label`.
pub open spec fn contributed(es: Seq<SharedOutputEntry>, file: Seq<char>, label: Seq<char>) -> bool {
    exists|k: int| 0 <= k < es.len() && es[k].filename@ == file && es[k].label@ == label
}

/// The text of the labels `ls`, in this order, each on its own line and
/// followed by its plain contributions to `file` in call order.
pub open spec fn grouped_text(ls: Seq<Seq<char>>, es: Seq<SharedOutputEntry>, file: Seq<char>) -> Seq<char>
    decreases ls.len(),
{
    if ls.len() == 0 {
        Seq::empty()
    } else {
        grouped_text(ls.drop_last(), es, file) + ls.last() + "\n"@ + lines_text(
            plain_lines(es, file, ls.last()),
        )
    }
}

/// The text of the shared file named `file`, empty when there is none.
pub open spec fn file_text(fs: Seq<SharedFile>, file: Seq<char>) -> Seq<char> {
    if exists|i: int| 0 <= i < fs.len() && fs[i].name@ == file {
        rendered(fs[choose|i: int| 0 <= i < fs.len() && fs[i].name@ == file].sections@)
    } else {
        Seq::empty()
    }
}

pub open spec fn labels_of(s: Seq<Section>) -> Seq<Seq<char>> {
    s.map_values(|x: Section| x.label@)
}

proof fn lemma_rendered_grouped(s: Seq<Section>, es: Seq<SharedOutputEntry>, file: Seq<char>)
    requires
        forall|j: int| 0 <= j < s.len() ==> views(#[trigger] s[j].lines@) == plain_lines(es, file, s[j].label@),
    ensures
        rendered(s) == grouped_text(labels_of(s), es, file),
    decreases s.len(),
{
    if s.len() > 0 {
        lemma_rendered_grouped(s.drop_last(), es, file);
        assert(labels_of(s).drop_last() =~= labels_of(s.drop_last()));
        assert(views(s.last().lines@) == plain_lines(es, file, s.last().label@));
    }
}

/// Shared-file merge ordering: after plain contributions (neither unique
/// nor continued), in any interleaving, are merged into an empty session,
/// the text of a file is its contributed labels in ascending order, each
/// followed by its own lines in call order. The requirements are what
/// [`SharedFiles::merge`] ensures from an empty session; the text is what
/// [`SharedFile::render`] returns for that file.
pub proof fn lemma_merge_ordering(after: Seq<SharedFile>, es: Seq<SharedOutputEntry>, file: Seq<char>)
    requires
        files_wf(after),
        forall|k: int| 0 <= k < es.len() ==> !(#[trigger] es[k]).unique && es[k].after is None,
        forall|f: Seq<char>, l: Seq<char>| file_lines(after, f, l) == fold_entries(Seq::empty(), es, f, l),
        forall|f: Seq<char>, l: Seq<char>| file_has_label(after, f, l) <==> contributed(es, f, l),
    ensures
        exists|ls: Seq<Seq<char>>|
            {
                &&& forall|i: int, j: int| 0 <= i < j < ls.len() ==> text_lt(ls[i], ls[j])
                &&& forall|l: Seq<char>| ls.contains(l) <==> contributed(es, file, l)
                &&& file_text(after, file) == grouped_text(ls, es, file)
            },
{
    if exists|i: int| 0 <= i < after.len() && after[i].name@ == file {
        let i = choose|i: int| 0 <= i < after.len() && after[i].name@ == file;
        let s = after[i].sections@;
        assert(after[i].wf());
        let ls = labels_of(s);
        assert forall|j: int| 0 <= j < s.len() implies views(#[trigger] s[j].lines@) == plain_lines(es, file, s[j].label@) by {
            lemma_section_lines_at(s, j);
            lemma_file_lines_at(after, i, s[j].label@);
            lemma_plain_call_order(Seq::empty(), es, file, s[j].label@);
            assert(Seq::<Seq<char>>::empty() + plain_lines(es, file, s[j].label@) =~= plain_lines(es, file, s[j].label@));
        }
        lemma_rendered_grouped(s, es, file);
        assert forall|l: Seq<char>| ls.contains(l) <==> contributed(es, file, l) by {
            if ls.contains(l) {
                let j = choose|j: int| 0 <= j < ls.len() && ls[j] == l;
                assert(has_label(s, l));
                assert(file_has_label(after, file, l));
            }
            if contributed(es, file, l) {
                assert(file_has_label(after, file, l));
                let k = choose|k: int| 0 <= k < after.len() && after[k].name@ == file && has_label(after[k].sections@, l);
                if k != i {
                    if k < i {
                        assert(after[k].name@ != after[i].name@);
                    } else {
                        assert(after[i].name@ != after[k].name@);
                    }
                }
                let j = choose|j: int| 0 <= j < s.len() && s[j].label@ == l;
                assert(ls[j] == l);
            }
        }
        assert(forall|a: int, b: int| 0 <= a < b < ls.len() ==> text_lt(ls[a], ls[b]));
        assert(file_text(after, file) == rendered(s));
    } else {
        let ls = Seq::<Seq<char>>::empty();
        assert forall|l: Seq<char>| ls.contains(l) <==> contributed(es, file, l) by {
            if contributed(es, file, l) {
                assert(file_has_label(after, file, l));
            }
        }
        assert(file_text(after, file) == grouped_text(ls, es, file));
    }
}

/// A shared file name stays in the shared directory: it names no path and
/// is not the parent directory.
pub open spec fn confined(name: Seq<char>) -> bool {
    !name.contains('/') && !name.contains('\\') && name != ".."@
}

/// Why shared output was refused.
pub enum SharedFileError {
    /// The module named a shared file by a path.
    OutsideSharedDir { module: String, file: String },
}

/// The shared files of one build session.
pub struct SharedFiles {
    pub files: Vec<SharedFile>,
}

/// The lines under `label` of the file named `file`.
pub open spec fn file_lines(fs: Seq<SharedFile>, file: Seq<char>, label: Seq<char>) -> Seq<Seq<char>> {
    if exists|i: int| 0 <= i < fs.len() && fs[i].name@ == file {
        section_lines(fs[choose|i: int| 0 <= i < fs.len() && fs[i].name@ == file].sections@, label)
    } else {
        Seq::empty()
    }
}

/// The file named `f` has a section labelled `l`.
pub open spec fn file_has_label(fs: Seq<SharedFile>, f: Seq<char>, l: Seq<char>) -> bool {
    exists|i: int| 0 <= i < fs.len() && fs[i].name@ == f && has_label(fs[i].sections@, l)
}

pub open spec fn files_wf(fs: Seq<SharedFile>) -> bool {
    &&& forall|i: int| 0 <= i < fs.len() ==> #[trigger] fs[i].wf()
    &&& forall|i: int, j: int| 0 <= i < j < fs.len() ==> fs[i].name@ != fs[j].name@
}

proof fn lemma_file_lines_at(fs: Seq<SharedFile>, i: int, label: Seq<char>)
    requires
        files_wf(fs),
        0 <= i < fs.len(),
    ensures
        file_lines(fs, fs[i].name@, label) == section_lines(fs[i].sections@, label),
{
    let c = choose|c: int| 0 <= c < fs.len() && fs[c].name@ == fs[i].name@;
    assert(0 <= c < fs.len() && fs[c].name@ == fs[i].name@);
    if c != i {
        if c < i {
            assert(fs[c].name@ != fs[i].name@);
        } else {
            assert(fs[i].name@ != fs[c].name@);
        }
    }
}

fn has_char(s: &String, c: char) -> (r: bool)
    ensures
        r == s@.contains(c),
{
    let cs = chars_of(s.as_str());
    let mut i: usize = 0;
    while i < cs.len()
        invariant
            i <= cs@.len(),
            cs@ == s@,
            forall|j: int| 0 <= j < i ==> cs@[j] != c,
        decreases cs@.len() - i,
    {
        if cs[i] == c {
            return true;
        }
        i = i + 1;
    }
    false
}

fn is_parent(s: &String) -> (r: bool)
    ensures
        r == (s@ == ".."@),
{
    proof {
        reveal_strlit("..");
    }
    let cs = chars_of(s.as_str());
    let r = cs.len() == 2 && cs[0] == '.' && cs[1] == '.';
    proof {
        if r {
            assert(cs@ =~= ".."@);
        }
    }
    r
}

impl SharedFiles {
    pub open spec fn wf(&self) -> bool {
        files_wf(self.files@)
    }

    pub fn new() -> (r: SharedFiles)
        ensures
            r.wf(),
            r.files@.len() == 0,
    {
        SharedFiles { files: Vec::new() }
    }

    fn add_entry(&mut self, e: &SharedOutputEntry)
        requires
            old(self).wf(),
        ensures
            final(self).wf(),
            forall|f: Seq<char>, l: Seq<char>|
                #![trigger file_lines(final(self).files@, f, l)]
                file_lines(final(self).files@, f, l) == if f == e.filename@ && l == e.label@ {
                    after_entry(file_lines(old(self).files@, f, l), e.unique, e.line@, opt_view(e.after))
                } else {
                    file_lines(old(self).files@, f, l)
                },
            forall|f: Seq<char>, l: Seq<char>|
                #![trigger file_has_label(final(self).files@, f, l)]
                file_has_label(final(self).files@, f, l) <==> file_has_label(old(self).files@, f, l)
                    || (f == e.filename@ && l == e.label@),
    {
        let ghost s0 = self.files@;
        let mut i: usize = 0;
        while i < self.files.len()
            invariant
                i <= self.files@.len(),
                self.files@ == s0,
                s0 == old(self).files@,
                files_wf(s0),
                forall|k: int| 0 <= k < i ==> s0[k].name@ != e.filename@,
            ensures
                i <= s0.len(),
                self.files@ == s0,
                forall|k: int| 0 <= k < i ==> s0[k].name@ != e.filename@,
                i == s0.len() || s0[i as int].name@ == e.filename@,
            decreases self.files@.len() - i,
        {
            if self.files[i].name == e.filename {
                break;
            }
            i = i + 1;
        }
        if i == self.files.len() {
            self.files.push(SharedFile::new(e.filename.clone()));
            proof {
                let s1 = self.files@;
                assert(s1 =~= s0.push(s1[i as int]));
                assert(section_lines(s1[i as int].sections@, e.label@) =~= Seq::<Seq<char>>::empty());
                assert forall|k: int| 0 <= k < i implies s1[k] == s0[k] by {}
                assert(files_wf(s1));
                assert forall|f: Seq<char>, l: Seq<char>| file_lines(s1, f, l) == file_lines(s0, f, l) by {
                    assert(section_lines(s1[i as int].sections@, l) =~= Seq::<Seq<char>>::empty());
                    if exists|k: int| 0 <= k < s1.len() && s1[k].name@ == f {
                        let k = choose|k: int| 0 <= k < s1.len() && s1[k].name@ == f;
                        lemma_file_lines_at(s1, k, l);
                        if k < i {
                            lemma_file_lines_at(s0, k, l);
                        } else {
                            assert(!(exists|k2: int| 0 <= k2 < s0.len() && s0[k2].name@ == f));
                        }
                    } else {
                        if exists|k2: int| 0 <= k2 < s0.len() && s0[k2].name@ == f {
                            let k2 = choose|k2: int| 0 <= k2 < s0.len() && s0[k2].name@ == f;
                            assert(s1[k2].name@ == f);
                        }
                    }
                }
            }
        }
        proof {
            assert(i < self.files@.len() && self.files@[i as int].name@ == e.filename@);
            let s1 = self.files@;
            assert forall|f: Seq<char>, l: Seq<char>| file_has_label(s1, f, l) <==> file_has_label(s0, f, l) by {
                if file_has_label(s1, f, l) {
                    let k = choose|k: int| 0 <= k < s1.len() && s1[k].name@ == f && has_label(s1[k].sections@, l);
                    if k < s0.len() {
                        assert(s1[k] == s0[k]);
                    } else {
                        assert(s1[k].sections@.len() == 0);
                    }
                }
                if file_has_label(s0, f, l) {
                    let k = choose|k: int| 0 <= k < s0.len() && s0[k].name@ == f && has_label(s0[k].sections@, l);
                    assert(s1[k] == s0[k]);
                }
            }
        }
        let ghost s1 = self.files@;
        let mut file = self.files.remove(i);
        file.add(&e.label, e.unique, &e.line, &e.after);
        self.files.insert(i, file);
        proof {
            let s2 = self.files@;
            assert(s2 =~= s1.update(i as int, s2[i as int]));
            assert forall|f: Seq<char>, l: Seq<char>| #[trigger] file_lines(s2, f, l) == if f == e.filename@ && l == e.label@ {
                after_entry(file_lines(s0, f, l), e.unique, e.line@, opt_view(e.after))
            } else {
                file_lines(s0, f, l)
            } by {
                lemma_file_lines_at(s1, i as int, l);
                lemma_file_lines_at(s2, i as int, l);
                if f != e.filename@ {
                    if exists|k: int| 0 <= k < s2.len() && s2[k].name@ == f {
                        let k = choose|k: int| 0 <= k < s2.len() && s2[k].name@ == f;
                        lemma_file_lines_at(s2, k, l);
                        lemma_file_lines_at(s1, k, l);
                        assert(s2[k] == s1[k]);
                    }
                    if exists|k: int| 0 <= k < s1.len() && s1[k].name@ == f {
                        let k = choose|k: int| 0 <= k < s1.len() && s1[k].name@ == f;
                        assert(s2[k] == s1[k]);
                    }
                }
            }
            assert forall|f: Seq<char>, l: Seq<char>| #[trigger] file_has_label(s2, f, l) <==> file_has_label(s0, f, l)
                || (f == e.filename@ && l == e.label@) by {
                if file_has_label(s2, f, l) {
                    let k = choose|k: int| 0 <= k < s2.len() && s2[k].name@ == f && has_label(s2[k].sections@, l);
                    if k != i {
                        assert(s2[k] == s1[k]);
                        assert(file_has_label(s1, f, l));
                    } else if !(l == e.label@) {
                        assert(has_label(s1[k].sections@, l));
                        assert(file_has_label(s1, f, l));
                    }
                }
                if file_has_label(s1, f, l) {
                    let k = choose|k: int| 0 <= k < s1.len() && s1[k].name@ == f && has_label(s1[k].sections@, l);
                    if k != i {
                        assert(s2[k] == s1[k]);
                    }
                    assert(file_has_label(s2, f, l));
                }
                if f == e.filename@ && l == e.label@ {
                    assert(has_label(s2[i as int].sections@, l));
                    assert(file_has_label(s2, f, l));
                }
            }
        }
    }

    /// Merges a module's contributions, in order. A contribution naming a
    /// file by a path refuses the whole batch before anything changes.
    pub fn merge(&mut self, module: &str, entries: &Vec<SharedOutputEntry>) -> (r: Result<(), SharedFileError>)
        requires
            old(self).wf(),
        ensures
            final(self).wf(),
            (forall|k: int| 0 <= k < entries@.len() ==> confined(#[trigger] entries@[k].filename@)) <==> r is Ok,
            r matches Err(SharedFileError::OutsideSharedDir { module: m, file }) ==> m@ == module@
                && !confined(file@) && final(self).files@ == old(self).files@,
            r is Ok ==> forall|f: Seq<char>, l: Seq<char>|
                file_lines(final(self).files@, f, l) == fold_entries(
                    file_lines(old(self).files@, f, l),
                    entries@,
                    f,
                    l,
                ),
            r is Ok ==> forall|f: Seq<char>, l: Seq<char>|
                file_has_label(final(self).files@, f, l) <==> file_has_label(old(self).files@, f, l)
                    || contributed(entries@, f, l),
    {
        let mut k: usize = 0;
        while k < entries.len()
            invariant
                k <= entries@.len(),
                self.files@ == old(self).files@,
                self.wf(),
                forall|j: int| 0 <= j < k ==> confined(#[trigger] entries@[j].filename@),
            decreases entries@.len() - k,
        {
            let name = &entries[k].filename;
            if has_char(name, '/') || has_char(name, '\\') || is_parent(name) {
                return Err(SharedFileError::OutsideSharedDir { module: module.to_owned(), file: name.clone() });
            }
            k = k + 1;
        }
        let ghost s0 = self.files@;
        let mut k: usize = 0;
        while k < entries.len()
            invariant
                k <= entries@.len(),
                self.wf(),
                forall|f: Seq<char>, l: Seq<char>|
                    file_lines(self.files@, f, l) == fold_entries(
                        file_lines(s0, f, l),
                        entries@.take(k as int),
                        f,
                        l,
                    ),
                forall|f: Seq<char>, l: Seq<char>|
                    #![trigger file_has_label(self.files@, f, l)]
                    file_has_label(self.files@, f, l) <==> file_has_label(s0, f, l) || contributed(
                        entries@.take(k as int),
                        f,
                        l,
                    ),
            decreases entries@.len() - k,
        {
            let ghost before = self.files@;
            self.add_entry(&entries[k]);
            proof {
                assert forall|f: Seq<char>, l: Seq<char>| #[trigger] file_has_label(self.files@, f, l) <==> file_has_label(s0, f, l)
                    || contributed(entries@.take(k as int + 1), f, l) by {
                    let t0 = entries@.take(k as int);
                    let t1 = entries@.take(k as int + 1);
                    if contributed(t0, f, l) {
                        let m = choose|m: int| 0 <= m < t0.len() && t0[m].filename@ == f && t0[m].label@ == l;
                        assert(t1[m] == t0[m]);
                    }
                    if contributed(t1, f, l) {
                        let m = choose|m: int| 0 <= m < t1.len() && t1[m].filename@ == f && t1[m].label@ == l;
                        if m < k {
                            assert(t1[m] == t0[m]);
                        }
                    }
                    assert(t1[k as int] == entries@[k as int]);
                    if f == entries@[k as int].filename@ && l == entries@[k as int].label@ {
                        assert(t1[k as int].filename@ == f && t1[k as int].label@ == l);
                        assert(contributed(t1, f, l));
                    }
                    assert(contributed(t1, f, l) <==> contributed(t0, f, l) || (f == entries@[k as int].filename@ && l == entries@[k as int].label@));
                    assert(file_has_label(before, f, l) <==> file_has_label(s0, f, l) || contributed(t0, f, l));
                    assert(file_has_label(self.files@, f, l) == (file_has_label(before, f, l) || (f == entries@[k as int].filename@ && l == entries@[k as int].label@)));
                }
            }
            proof {
                assert(entries@.take(k as int + 1).drop_last() =~= entries@.take(k as int));
                assert forall|f: Seq<char>, l: Seq<char>| file_lines(self.files@, f, l) == fold_entries(
                    file_lines(s0, f, l),
                    entries@.take(k as int + 1),
                    f,
                    l,
                ) by {
                    assert(file_lines(self.files@, f, l) == file_lines(self.files@, f, l));
                }
            }
            k = k + 1;
        }
        proof {
            assert(entries@.take(k as int) =~= entries@);
        }
        Ok(())
    }
}

// ---------------------------------------------------------------------------
// Files a guest emits under its own directory

/// A file name leaves its directory: it is absolute, holds a backslash, or
/// has a `..` component.
pub open spec fn escapes(name: Seq<char>) -> bool {
    is_prefix("/"@, name) || name.contains('\\') || contains("/"@ + name + "/"@, "/../"@)
}

/// `name` has a path-traversal segment: a `..` component or a backslash.
pub open spec fn has_traversal(name: Seq<char>) -> bool {
    contains("/"@ + name + "/"@, "/../"@) || name.contains('\\')
}

/// Path confinement: a file name with a traversal segment is neither a
/// confined shared file name nor one that stays in a module's output
/// directory. So [`SharedFiles::merge`] refuses a batch holding it and
/// leaves every file as it was, and [`plan_file_outputs`] refuses it and
/// plans no write.
pub proof fn lemma_traversal_refused(name: Seq<char>)
    requires
        has_traversal(name),
    ensures
        !confined(name),
        escapes(name),
{
    reveal_strlit("/../");
    reveal_strlit("/");
    reveal_strlit("..");
    if !name.contains('\\') && !name.contains('/') {
        let s = "/"@ + name + "/"@;
        let i = choose|i: int| occurs_at(s, "/../"@, i);
        assert(s.subrange(i, i + 4)[0] == '/');
        assert(s.subrange(i, i + 4)[3] == '/');
        assert(s[i] == '/');
        assert(s[i + 3] == '/');
        if 0 < i && i <= name.len() {
            assert(s[i] == name[i - 1]);
        }
        assert(i == 0);
        if 3 <= name.len() {
            assert(s[3] == name[2]);
        }
        assert(name.len() == 2);
        assert(s.subrange(i, i + 4)[1] == '.');
        assert(s.subrange(i, i + 4)[2] == '.');
        assert(name[0] == s[1]);
        assert(name[1] == s[2]);
        assert(name =~= ".."@);
    }
}

/// Why guest file output was refused.
pub enum EmitError {
    /// A file name would leave the module's output directory.
    OutsideOutputDir { module: String, item: String, file: String },
}

/// The directory of a module's files for one annotated item.
pub open spec fn item_dir(base: Seq<char>, module: Seq<char>, item: Seq<char>) -> Seq<char> {
    base + "/"@ + module + "/"@ + item
}

/// The paths to write a guest's files to, in order, under the directory of
/// the module and item; refused as a whole when any name escapes it, so
/// nothing is written.
pub fn plan_file_outputs(base: &str, module: &str, item: &str, outs: &Vec<FileOut>) -> (r: Result<Vec<String>, EmitError>)
    ensures
        (forall|k: int| 0 <= k < outs@.len() ==> !escapes(#[trigger] outs@[k].name@)) <==> r is Ok,
        r matches Ok(paths) ==> paths@.len() == outs@.len() && forall|k: int|
            0 <= k < outs@.len() ==> #[trigger] paths@[k]@ == item_dir(base@, module@, item@) + "/"@
                + outs@[k].name@,
        r matches Err(EmitError::OutsideOutputDir { module: m, item: it, file }) ==> m@ == module@
            && it@ == item@ && escapes(file@),
{
    let mut dir = base.to_owned();
    dir.append("/");
    dir.append(module);
    dir.append("/");
    dir.append(item);
    let mut paths: Vec<String> = Vec::new();
    let mut k: usize = 0;
    while k < outs.len()
        invariant
            k <= outs@.len(),
            dir@ == item_dir(base@, module@, item@),
            paths@.len() == k,
            forall|j: int| 0 <= j < k ==> !escapes(#[trigger] outs@[j].name@),
            forall|j: int| 0 <= j < k ==> #[trigger] paths@[j]@ == item_dir(base@, module@, item@) + "/"@ + outs@[j].name@,
        decreases outs@.len() - k,
    {
        let name = &outs[k].name;
        let mut framed = "/".to_owned();
        framed.append(name.as_str());
        framed.append("/");
        if starts_with(name.as_str(), "/") || has_char(name, '\\') || contains_str(framed.as_str(), "/../") {
            return Err(EmitError::OutsideOutputDir { module: module.to_owned(), item: item.to_owned(), file: name.clone() });
        }
        let mut path = dir.clone();
        path.append("/");
        path.append(name.as_str());
        paths.push(path);
        k = k + 1;
    }
    Ok(paths)
}

} // verus!
