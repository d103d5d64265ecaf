//! Spec documents: task-list progress, lifecycle phase, and validation of
//! a spec's sections.
//!
//! Reading the documents from disk is I/O and lives outside this library;
//! the functions here work on the documents' contents.
use vstd::prelude::*;
use vstd::string::StrSliceExecFns;

use crate::command::{is_space, space_char};
use crate::flow::has_prefix;
use crate::workspace::seq_views;

verus! {

broadcast use vstd::string::group_string_axioms;

/// Lifecycle phases of a spec.
#[derive(Debug, Clone, Copy, PartialEq, Eq, Structural)]
pub enum SpecPhase {
    New,
    Draft,
    Active,
    Archived,
}

/// A spec with its documents and task progress.
pub struct SpecInfo {
    pub name: String,
    pub phase: SpecPhase,
    pub path: String,
    pub has_proposal: bool,
    pub has_design: bool,
    pub has_tasks: bool,
    pub tasks_total: usize,
    pub tasks_done: usize,
}

/// Outcome of validating a spec.
pub struct ValidationResult {
    pub name: String,
    pub valid: bool,
    pub issues: Vec<String>,
}

/// The number of leading characters before the first line break.
pub open spec fn line_len(s: Seq<char>) -> int
    decreases s.len(),
{
    if s.len() == 0 {
        0
    } else if s[0] == '\n' {
        0
    } else {
        1 + line_len(s.drop_first())
    }
}

proof fn lemma_line_len_bounds(s: Seq<char>)
    ensures
        0 <= line_len(s) <= s.len(),
    decreases s.len(),
{
    if s.len() > 0 && s[0] != '\n' {
        lemma_line_len_bounds(s.drop_first());
    }
}

/// The text split at line breaks, in order; the separators are dropped.
pub open spec fn split_lines(s: Seq<char>) -> Seq<Seq<char>>
    decreases s.len(),
        via split_lines_decreases
{
    if s.len() == 0 {
        Seq::empty()
    } else {
        let l = line_len(s);
        if l == s.len() {
            seq![s]
        } else {
            seq![s.subrange(0, l)] + split_lines(s.subrange(l + 1, s.len() as int))
        }
    }
}

#[via_fn]
proof fn split_lines_decreases(s: Seq<char>) {
    lemma_line_len_bounds(s);
}

/// A line ends exactly at the first line break (or the end of the text).
proof fn lemma_line_boundary(s: Seq<char>, l: int)
    requires
        0 <= l <= s.len(),
        forall|t: int| 0 <= t < l ==> #[trigger] s[t] != '\n',
        l == s.len() || s[l] == '\n',
    ensures
        line_len(s) == l,
    decreases s.len(),
{
    if s.len() == 0 {
    } else if s[0] == '\n' {
        assert(l == 0);
    } else {
        assert(l >= 1);
        let rest = s.drop_first();
        assert forall|t: int| 0 <= t < l - 1 implies #[trigger] rest[t] != '\n' by {
            assert(rest[t] == s[t + 1]);
        }
        if l < s.len() {
            assert(rest[l - 1] == s[l]);
        }
        lemma_line_boundary(rest, l - 1);
    }
}

/// The number of leading blanks of a line.
pub open spec fn lead_blanks(s: Seq<char>) -> int
    decreases s.len(),
{
    if s.len() == 0 {
        0
    } else if !is_space(s[0]) {
        0
    } else {
        1 + lead_blanks(s.drop_first())
    }
}

proof fn lemma_lead_blanks_bounds(s: Seq<char>)
    ensures
        0 <= lead_blanks(s) <= s.len(),
    decreases s.len(),
{
    if s.len() > 0 && is_space(s[0]) {
        lemma_lead_blanks_bounds(s.drop_first());
    }
}

/// The leading blanks end exactly at the first non-blank (or the end).
proof fn lemma_lead_blanks_boundary(s: Seq<char>, l: int)
    requires
        0 <= l <= s.len(),
        forall|t: int| 0 <= t < l ==> is_space(#[trigger] s[t]),
        l == s.len() || !is_space(s[l]),
    ensures
        lead_blanks(s) == l,
    decreases s.len(),
{
    if s.len() == 0 {
    } else if !is_space(s[0]) {
        assert(l == 0);
    } else {
        assert(l >= 1);
        let rest = s.drop_first();
        assert forall|t: int| 0 <= t < l - 1 implies is_space(#[trigger] rest[t]) by {
            assert(rest[t] == s[t + 1]);
        }
        if l < s.len() {
            assert(rest[l - 1] == s[l]);
        }
        lemma_lead_blanks_boundary(rest, l - 1);
    }
}

/// A line without its leading blanks.
pub open spec fn trim_start(s: Seq<char>) -> Seq<char> {
    s.subrange(lead_blanks(s), s.len() as int)
}

/// A checked-off task line: `- [x]` after the indentation.
pub open spec fn is_done_line(l: Seq<char>) -> bool {
    "- [x]"@.is_prefix_of(trim_start(l)) || "- [X]"@.is_prefix_of(trim_start(l))
}

/// A task line, checked or not.
pub open spec fn is_task_line(l: Seq<char>) -> bool {
    is_done_line(l) || "- [ ]"@.is_prefix_of(trim_start(l))
}

/// The number of task lines among `ls`.
pub open spec fn tasks_total(ls: Seq<Seq<char>>) -> int
    decreases ls.len(),
{
    if ls.len() == 0 {
        0
    } else {
        (if is_task_line(ls.first()) {
            1int
        } else {
            0int
        }) + tasks_total(ls.drop_first())
    }
}

/// The number of checked-off task lines among `ls`.
pub open spec fn tasks_done(ls: Seq<Seq<char>>) -> int
    decreases ls.len(),
{
    if ls.len() == 0 {
        0
    } else {
        (if is_done_line(ls.first()) {
            1int
        } else {
            0int
        }) + tasks_done(ls.drop_first())
    }
}

proof fn lemma_counts_push(ls: Seq<Seq<char>>, x: Seq<char>)
    ensures
        tasks_total(ls.push(x)) == tasks_total(ls) + (if is_task_line(x) {
            1int
        } else {
            0int
        }),
        tasks_done(ls.push(x)) == tasks_done(ls) + (if is_done_line(x) {
            1int
        } else {
            0int
        }),
    decreases ls.len(),
{
    let p = ls.push(x);
    assert(p.len() == ls.len() + 1);
    if ls.len() == 0 {
        assert(p.first() == x);
        assert(p.drop_first() =~= Seq::<Seq<char>>::empty());
        assert(tasks_total(p) == (if is_task_line(p.first()) {
            1int
        } else {
            0int
        }) + tasks_total(p.drop_first()));
        assert(tasks_done(p) == (if is_done_line(p.first()) {
            1int
        } else {
            0int
        }) + tasks_done(p.drop_first()));
    } else {
        lemma_counts_push(ls.drop_first(), x);
        assert(p.drop_first() =~= ls.drop_first().push(x));
        assert(p.first() == ls.first());
        assert(tasks_total(p) == (if is_task_line(p.first()) {
            1int
        } else {
            0int
        }) + tasks_total(p.drop_first()));
        assert(tasks_done(p) == (if is_done_line(p.first()) {
            1int
        } else {
            0int
        }) + tasks_done(p.drop_first()));
    }
}

proof fn lemma_counts_bounds(ls: Seq<Seq<char>>)
    ensures
        0 <= tasks_done(ls) <= tasks_total(ls) <= ls.len(),
    decreases ls.len(),
{
    if ls.len() > 0 {
        lemma_counts_bounds(ls.drop_first());
    }
}

/// Split a text into its lines.
fn split_lines_exec(s: &str) -> (r: Vec<String>)
    ensures
        seq_views(r@) == split_lines(s@),
{
    let n = s.unicode_len();
    let mut lines: Vec<String> = Vec::new();
    let mut i: usize = 0;
    proof {
        assert(s@.subrange(0, n as int) =~= s@);
        assert(seq_views(lines@) =~= Seq::<Seq<char>>::empty());
    }
    while i < n
        invariant
            n == s@.len(),
            i <= n,
            split_lines(s@) == seq_views(lines@) + split_lines(s@.subrange(i as int, n as int)),
            i > 0 ==> i == n || s@[i - 1] == '\n',
        decreases n - i,
    {
        let ghost rest = s@.subrange(i as int, n as int);
        let mut j = i;
        while j < n && s.get_char(j) != '\n'
            invariant
                n == s@.len(),
                i <= j <= n,
                forall|t: int| i <= t < j ==> #[trigger] s@[t] != '\n',
            decreases n - j,
        {
            j = j + 1;
        }
        let line = s.substring_char(i, j).to_owned();
        let ghost lines_before = seq_views(lines@);
        lines.push(line);
        proof {
            assert forall|t: int| 0 <= t < j - i implies #[trigger] rest[t] != '\n' by {
                assert(rest[t] == s@[i + t]);
            }
            if (j as int) < n as int {
                assert(rest[j - i] == s@[j as int]);
            }
            lemma_line_boundary(rest, j - i);
            assert(rest.subrange(0, j - i) =~= s@.subrange(i as int, j as int));
            if j < n {
                assert(rest.subrange(j - i + 1, rest.len() as int) =~= s@.subrange(
                    j + 1,
                    n as int,
                ));
                assert(split_lines(rest) == seq![s@.subrange(i as int, j as int)] + split_lines(
                    s@.subrange(j + 1, n as int),
                ));
            } else {
                assert(rest.subrange(0, j - i) =~= rest);
                assert(split_lines(rest) == seq![rest]);
                assert(s@.subrange(n as int, n as int) =~= Seq::<char>::empty());
                assert(split_lines(s@.subrange(n as int, n as int)) =~= Seq::<
                    Seq<char>,
                >::empty());
            }
            assert(seq_views(lines@) =~= lines_before.push(s@.subrange(i as int, j as int)));
            assert(seq_views(lines@) + split_lines(
                s@.subrange(if j < n {
                    j + 1
                } else {
                    n as int
                }, n as int),
            ) =~= lines_before + split_lines(rest));
        }
        if j < n {
            i = j + 1;
        } else {
            i = n;
        }
    }
    proof {
        assert(s@.subrange(n as int, n as int) =~= Seq::<char>::empty());
        assert(seq_views(lines@) =~= seq_views(lines@) + Seq::<Seq<char>>::empty());
    }
    lines
}

/// A line's text after its indentation.
fn trim_start_exec(line: &str) -> (r: String)
    ensures
        r@ == trim_start(line@),
{
    let n = line.unicode_len();
    let mut k: usize = 0;
    while k < n && space_char(line.get_char(k))
        invariant
            n == line@.len(),
            k <= n,
            forall|t: int| 0 <= t < k ==> is_space(#[trigger] line@[t]),
        decreases n - k,
    {
        k = k + 1;
    }
    proof {
        if (k as int) < n as int {
            assert(!is_space(line@[k as int]));
        }
        lemma_lead_blanks_boundary(line@, k as int);
    }
    line.substring_char(k, n).to_owned()
}

/// Count the task checkboxes of a task document: every line whose trimmed
/// text starts with `- [x]`, `- [X]` or `- [ ]` is a task; the first two
/// count as done. Returns `(total, done)`.
pub fn parse_tasks(content: &str) -> (r: (usize, usize))
    ensures
        r.0 as int == tasks_total(split_lines(content@)),
        r.1 as int == tasks_done(split_lines(content@)),
        r.1 <= r.0,
{
    let lines = split_lines_exec(content);
    let n = lines.len();
    let mut total: usize = 0;
    let mut done: usize = 0;
    proof {
        assert(seq_views(lines@).subrange(0, 0) =~= Seq::<Seq<char>>::empty());
    }
    for i in 0..n
        invariant
            n == lines@.len(),
            seq_views(lines@) == split_lines(content@),
            total as int == tasks_total(seq_views(lines@).subrange(0, i as int)),
            done as int == tasks_done(seq_views(lines@).subrange(0, i as int)),
            done <= total <= i,
    {
        let ghost pre = seq_views(lines@).subrange(0, i as int);
        let ghost cur = seq_views(lines@).subrange(0, i + 1);
        proof {
            assert(cur =~= pre.push(seq_views(lines@)[i as int]));
            lemma_counts_push(pre, seq_views(lines@)[i as int]);
            lemma_counts_bounds(pre);
        }
        let trimmed = trim_start_exec(lines[i].as_str());
        proof {
            assert(seq_views(lines@)[i as int] == lines@[i as int]@);
        }
        if has_prefix(trimmed.as_str(), "- [x]") || has_prefix(trimmed.as_str(), "- [X]") {
            total = total + 1;
            done = done + 1;
        } else if has_prefix(trimmed.as_str(), "- [ ]") {
            total = total + 1;
        }
    }
    proof {
        assert(seq_views(lines@).subrange(0, n as int) =~= seq_views(lines@));
    }
    (total, done)
}

/// The lifecycle phase derived from a spec's task progress: no task
/// document means a fresh spec; a non-empty, fully checked-off task list
/// means an active one; anything else is a draft.
pub open spec fn phase_spec(has_tasks: bool, total: int, done: int) -> SpecPhase {
    if !has_tasks {
        SpecPhase::New
    } else if total > 0 && total == done {
        SpecPhase::Active
    } else {
        SpecPhase::Draft
    }
}

/// The lifecycle phase of a spec from its task progress.
pub fn spec_phase(has_tasks: bool, tasks_total: usize, tasks_done: usize) -> (r: SpecPhase)
    ensures
        r == phase_spec(has_tasks, tasks_total as int, tasks_done as int),
{
    if !has_tasks {
        SpecPhase::New
    } else if tasks_total > 0 && tasks_total == tasks_done {
        SpecPhase::Active
    } else {
        SpecPhase::Draft
    }
}

/// `sub` occurs somewhere in `s`.
pub open spec fn contains_seq(s: Seq<char>, sub: Seq<char>) -> bool {
    exists|i: int| 0 <= i <= s.len() - sub.len() && #[trigger] s.subrange(i, i + sub.len()) == sub
}

/// Whether `sub` occurs somewhere in `s`.
pub fn contains_sub(s: &str, sub: &str) -> (r: bool)
    ensures
        r == contains_seq(s@, sub@),
{
    let n = s.unicode_len();
    let m = sub.unicode_len();
    if m > n {
        proof {
            if contains_seq(s@, sub@) {
                let i = choose|i: int|
                    0 <= i <= s@.len() - sub@.len() && #[trigger] s@.subrange(i, i + sub@.len())
                        == sub@;
            }
        }
        return false;
    }
    let mut i: usize = 0;
    while i <= n - m
        invariant
            n == s@.len(),
            m == sub@.len(),
            m <= n,
            i <= n - m + 1,
            forall|i2: int| 0 <= i2 < i ==> #[trigger] s@.subrange(i2, i2 + m as int) != sub@,
        decreases n - m + 1 - i,
    {
        let mut k: usize = 0;
        let mut matches = true;
        while k < m && matches
            invariant
                n == s@.len(),
                m == sub@.len(),
                i + m <= n,
                k <= m,
                matches ==> forall|t: int| 0 <= t < k ==> s@[i + t] == #[trigger] sub@[t],
                !matches ==> k > 0 && s@[i + k - 1] != sub@[k - 1],
            decreases m - k,
        {
            if s.get_char(i + k) != sub.get_char(k) {
                matches = false;
            }
            k = k + 1;
        }
        if matches {
            proof {
                assert(s@.subrange(i as int, i + m as int) =~= sub@) by {
                    assert forall|t: int| 0 <= t < m implies s@.subrange(i as int, i + m as int)[t]
                        == sub@[t] by {
                        assert(s@[i + t] == sub@[t]);
                    }
                }
            }
            return true;
        }
        proof {
            assert(s@.subrange(i as int, i + m as int) != sub@) by {
                assert(s@.subrange(i as int, i + m as int)[k - 1] == s@[i + k - 1]);
            }
            assert forall|i2: int|
                0 <= i2 < i + 1 implies #[trigger] s@.subrange(i2, i2 + m as int) != sub@ by {}
        }
        i = i + 1;
    }
    proof {
        if contains_seq(s@, sub@) {
            let i2 = choose|i2: int|
                0 <= i2 <= s@.len() - sub@.len() && #[trigger] s@.subrange(i2, i2 + sub@.len())
                    == sub@;
        }
    }
    false
}

/// The issues a validation reports, in the order they are checked: missing
/// documents first, then a task document without checkboxes, then missing
/// sections of the documents that are present.
pub open spec fn validate_issues(
    proposal: Option<Seq<char>>,
    design: Option<Seq<char>>,
    tasks: Option<Seq<char>>,
) -> Seq<Seq<char>> {
    (if proposal is None {
        seq!["missing proposal.md"@]
    } else {
        Seq::empty()
    }) + (if design is None {
        seq!["missing design.md"@]
    } else {
        Seq::empty()
    }) + (match tasks {
        None => seq!["missing tasks.md"@],
        Some(t) => if !contains_seq(t, "- ["@) {
            seq!["tasks.md has no task checkboxes"@]
        } else {
            Seq::empty()
        },
    }) + (match proposal {
        None => Seq::empty(),
        Some(p) => (if !contains_seq(p, "## Why"@) {
            seq!["proposal.md missing '## Why' section"@]
        } else {
            Seq::empty()
        }) + (if !contains_seq(p, "## What Changes"@) {
            seq!["proposal.md missing '## What Changes' section"@]
        } else {
            Seq::empty()
        }),
    }) + (match design {
        None => Seq::empty(),
        Some(d) => if !contains_seq(d, "## Decisions"@) {
            seq!["design.md missing '## Decisions' section"@]
        } else {
            Seq::empty()
        },
    })
}

/// The view of the optional contents of one document.
pub open spec fn doc_view(doc: Option<&String>) -> Option<Seq<char>> {
    match doc {
        Some(d) => Some(d@),
        None => None,
    }
}

/// Validate a spec from the contents of its documents (`None` for a
/// document that does not exist): the result lists every issue found, in
/// checking order, and is valid exactly when there is none.
pub fn validate(
    name: &str,
    proposal: Option<&String>,
    design: Option<&String>,
    tasks: Option<&String>,
) -> (r: ValidationResult)
    ensures
        r.name@ == name@,
        seq_views(r.issues@) == validate_issues(
            doc_view(proposal),
            doc_view(design),
            doc_view(tasks),
        ),
        r.valid <==> validate_issues(doc_view(proposal), doc_view(design), doc_view(tasks)).len()
            == 0,
{
    let mut issues: Vec<String> = Vec::new();
    if proposal.is_none() {
        issues.push("missing proposal.md".to_owned());
    }
    if design.is_none() {
        issues.push("missing design.md".to_owned());
    }
    match tasks {
        None => {
            issues.push("missing tasks.md".to_owned());
        },
        Some(t) => {
            if !contains_sub(t.as_str(), "- [") {
                issues.push("tasks.md has no task checkboxes".to_owned());
            }
        },
    }
    if let Some(p) = proposal {
        if !contains_sub(p.as_str(), "## Why") {
            issues.push("proposal.md missing '## Why' section".to_owned());
        }
        if !contains_sub(p.as_str(), "## What Changes") {
            issues.push("proposal.md missing '## What Changes' section".to_owned());
        }
    }
    if let Some(d) = design {
        if !contains_sub(d.as_str(), "## Decisions") {
            issues.push("design.md missing '## Decisions' section".to_owned());
        }
    }
    let valid = issues.len() == 0;
    proof {
        assert(seq_views(issues@) =~= validate_issues(
            doc_view(proposal),
            doc_view(design),
            doc_view(tasks),
        ));
    }
    ValidationResult { name: name.to_owned(), valid, issues }
}

} // verus!
