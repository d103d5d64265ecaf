//! Command lines: whitespace tokenization and per-phase command selection.
//!
//! A command string is split on runs of blanks into tokens; the first token
//! is the program, the rest its arguments. A command whose string holds no
//! token at all is an empty command: the engines record it as a failure
//! instead of handing it out.
use vstd::prelude::*;
use vstd::string::StrSliceExecFns;

use crate::workspace::{RepoConfig, RepoView, seq_views};

verus! {

/// A blank character: space, tab, or a line break.
pub open spec fn is_space(c: char) -> bool {
    c == ' ' || c == '\t' || c == '\n' || c == '\r'
}

/// The length of the leading run of non-blank characters.
pub open spec fn first_token_len(s: Seq<char>) -> int
    decreases s.len(),
{
    if s.len() == 0 {
        0
    } else if is_space(s[0]) {
        0
    } else {
        1 + first_token_len(s.drop_first())
    }
}

proof fn lemma_first_token_len_bounds(s: Seq<char>)
    ensures
        0 <= first_token_len(s) <= s.len(),
    decreases s.len(),
{
    if s.len() > 0 && !is_space(s[0]) {
        lemma_first_token_len_bounds(s.drop_first());
    }
}

/// The maximal runs of non-blank characters of `s`, in order.
pub open spec fn tokens_of(s: Seq<char>) -> Seq<Seq<char>>
    decreases s.len(),
        via tokens_of_decreases
{
    if s.len() == 0 {
        Seq::empty()
    } else if is_space(s[0]) {
        tokens_of(s.drop_first())
    } else {
        seq![s.subrange(0, first_token_len(s))] + tokens_of(
            s.subrange(first_token_len(s), s.len() as int),
        )
    }
}

#[via_fn]
proof fn tokens_of_decreases(s: Seq<char>) {
    if s.len() > 0 && !is_space(s[0]) {
        lemma_first_token_len_bounds(s);
        lemma_first_token_len_bounds(s.drop_first());
    }
}

/// The leading token ends exactly at the first blank (or the end).
proof fn lemma_token_boundary(s: Seq<char>, l: int)
    requires
        0 <= l <= s.len(),
        forall|t: int| 0 <= t < l ==> !is_space(#[trigger] s[t]),
        l == s.len() || is_space(s[l]),
    ensures
        first_token_len(s) == l,
    decreases s.len(),
{
    if s.len() == 0 {
    } else if is_space(s[0]) {
        assert(l == 0);
    } else {
        assert(l >= 1);
        let rest = s.drop_first();
        assert forall|t: int| 0 <= t < l - 1 implies !is_space(#[trigger] rest[t]) by {
            assert(rest[t] == s[t + 1]);
        }
        if l < s.len() {
            assert(rest[l - 1] == s[l]);
        }
        lemma_token_boundary(rest, l - 1);
    }
}

/// Whether `c` is a blank.
pub fn space_char(c: char) -> (r: bool)
    ensures
        r == is_space(c),
{
    c == ' ' || c == '\t' || c == '\n' || c == '\r'
}

/// Split a command line into its whitespace-separated tokens.
pub fn tokenize(s: &str) -> (r: Vec<String>)
    ensures
        seq_views(r@) == tokens_of(s@),
{
    let n = s.unicode_len();
    let mut toks: Vec<String> = Vec::new();
    let mut i: usize = 0;
    proof {
        assert(s@.subrange(0, n as int) =~= s@);
        assert(seq_views(toks@) =~= Seq::<Seq<char>>::empty());
    }
    while i < n
        invariant
            n == s@.len(),
            i <= n,
            tokens_of(s@) == seq_views(toks@) + tokens_of(s@.subrange(i as int, n as int)),
        decreases n - i,
    {
        let ghost rest = s@.subrange(i as int, n as int);
        let c = s.get_char(i);
        if space_char(c) {
            proof {
                assert(rest[0] == s@[i as int]);
                assert(rest.drop_first() =~= s@.subrange(i + 1, n as int));
                assert(tokens_of(rest) == tokens_of(s@.subrange(i + 1, n as int)));
            }
            i = i + 1;
        } else {
            let mut j = i + 1;
            while j < n && !space_char(s.get_char(j))
                invariant
                    n == s@.len(),
                    i < j <= n,
                    forall|t: int| i <= t < j ==> !is_space(#[trigger] s@[t]),
                decreases n - j,
            {
                j = j + 1;
            }
            let tok = s.substring_char(i, j).to_owned();
            let ghost toks_before = seq_views(toks@);
            toks.push(tok);
            proof {
                assert(j == n || is_space(s@[j as int]));
                assert forall|t: int| 0 <= t < j - i implies !is_space(#[trigger] rest[t]) by {
                    assert(rest[t] == s@[i + t]);
                }
                if (j as int) < n as int {
                    assert(rest[j - i] == s@[j as int]);
                }
                lemma_token_boundary(rest, j - i);
                assert(rest.subrange(0, j - i) =~= s@.subrange(i as int, j as int));
                assert(rest.subrange(j - i, rest.len() as int) =~= s@.subrange(
                    j as int,
                    n as int,
                ));
                assert(tokens_of(rest) == seq![s@.subrange(i as int, j as int)] + tokens_of(
                    s@.subrange(j as int, n as int),
                ));
                assert(tok@ == s@.subrange(i as int, j as int));
                assert(seq_views(toks@) =~= toks_before.push(tok@));
                assert(seq_views(toks@) + tokens_of(s@.subrange(j as int, n as int)) =~= (
                toks_before + tokens_of(rest)));
            }
            i = j;
        }
    }
    proof {
        assert(s@.subrange(n as int, n as int) =~= Seq::<char>::empty());
        assert(tokens_of(Seq::<char>::empty()) == Seq::<Seq<char>>::empty());
        assert(seq_views(toks@) =~= seq_views(toks@) + Seq::<Seq<char>>::empty());
    }
    toks
}

/// The configured build command of a repository, or the default.
pub open spec fn build_command_spec(r: RepoView) -> Seq<char> {
    match r.build_cmd {
        Some(c) => c,
        None => "cargo build"@,
    }
}

/// The configured test command of a repository, or the default.
pub open spec fn test_command_spec(r: RepoView) -> Seq<char> {
    match r.test_cmd {
        Some(c) => c,
        None => "cargo test"@,
    }
}

/// The effective build command of a repository.
pub fn build_command(repo: &RepoConfig) -> (r: String)
    ensures
        r@ == build_command_spec(repo@),
{
    match &repo.build_cmd {
        Some(c) => c.clone(),
        None => "cargo build".to_owned(),
    }
}

/// The effective test command of a repository.
pub fn test_command(repo: &RepoConfig) -> (r: String)
    ensures
        r@ == test_command_spec(repo@),
{
    match &repo.test_cmd {
        Some(c) => c.clone(),
        None => "cargo test".to_owned(),
    }
}

/// The build phases an external command can belong to.
#[derive(PartialEq, Eq, Structural, Clone, Copy, Debug)]
pub enum BuildPhase {
    Clean,
    Build,
    Test,
}

/// One external command for the caller to run: program and arguments, in
/// the repository's working directory relative to the workspace root.
pub struct CommandRequest {
    pub repo_name: String,
    pub dir: String,
    pub command: String,
    pub tokens: Vec<String>,
    pub phase: BuildPhase,
}

} // verus!
