//! The git invocations behind each view, and reading their answers.
use vstd::prelude::*;
use crate::text::{chars_of, string_of, trim, trim_chars};

verus! {

pub open spec fn args_view(v: Seq<String>) -> Seq<Seq<char>> {
    v.map_values(|s: String| s@)
}

fn push_word(v: &mut Vec<String>, w: &str)
    ensures
        args_view(final(v)@) == args_view(old(v)@).push(w@),
{
    v.push(w.to_owned());
    assert(args_view(v@) =~= args_view(old(v)@).push(w@));
}

fn push_string(v: &mut Vec<String>, w: &String)
    ensures
        args_view(final(v)@) == args_view(old(v)@).push(w@),
{
    v.push(w.clone());
    assert(args_view(v@) =~= args_view(old(v)@).push(w@));
}

fn words(ws: &[&str]) -> (v: Vec<String>)
    ensures
        args_view(v@) == ws@.map_values(|w: &str| w@),
{
    let mut v: Vec<String> = Vec::new();
    let mut i: usize = 0;
    assert(args_view(v@) =~= ws@.take(0).map_values(|w: &str| w@));
    while i < ws.len()
        invariant
            0 <= i <= ws@.len(),
            args_view(v@) == ws@.take(i as int).map_values(|w: &str| w@),
        decreases ws@.len() - i,
    {
        push_word(&mut v, ws[i]);
        assert(ws@.take(i + 1).map_values(|w: &str| w@) =~= ws@.take(i as int).map_values(
            |w: &str| w@,
        ).push(ws@[i as int]@));
        i = i + 1;
    }
    assert(ws@.take(ws@.len() as int) == ws@);
    v
}

/// `git status --porcelain`: the staged and unstaged files.
pub fn status_args() -> (v: Vec<String>)
    ensures
        args_view(v@) == seq!["status"@, "--porcelain"@],
{
    let v = words(&["status", "--porcelain"]);
    assert(args_view(v@) =~= seq!["status"@, "--porcelain"@]);
    v
}

/// `git symbolic-ref --short HEAD`: the current branch.
pub fn branch_args() -> (v: Vec<String>)
    ensures
        args_view(v@) == seq!["symbolic-ref"@, "--short"@, "HEAD"@],
{
    let v = words(&["symbolic-ref", "--short", "HEAD"]);
    assert(args_view(v@) =~= seq!["symbolic-ref"@, "--short"@, "HEAD"@]);
    v
}

/// The current branch from the answer of `branch_args`: the output without
/// surrounding whitespace.
pub fn branch_name(output: &str) -> (b: String)
    ensures
        b@ == trim(output@),
{
    let v = chars_of(output);
    let (a, e) = trim_chars(&v);
    string_of(&v, a, e)
}

/// `git diff-tree --no-commit-id -r --name-only <hash>`: the files a commit
/// changed.
pub fn changed_files_args(hash: &String) -> (v: Vec<String>)
    ensures
        args_view(v@) == seq!["diff-tree"@, "--no-commit-id"@, "-r"@, "--name-only"@, hash@],
{
    let mut v = words(&["diff-tree", "--no-commit-id", "-r", "--name-only"]);
    push_string(&mut v, hash);
    assert(args_view(v@) =~= seq!["diff-tree"@, "--no-commit-id"@, "-r"@, "--name-only"@, hash@]);
    v
}

/// The diff shown for a row: `git diff HEAD` for the working-tree row,
/// else `git diff-tree --no-commit-id -r --stat <hash>` for a summary or
/// `git show <hash>` for the full commit.
pub open spec fn diff_args_spec(is_working: bool, hash: Seq<char>, stat_only: bool) -> Seq<Seq<char>> {
    if is_working {
        seq!["diff"@, "HEAD"@]
    } else if stat_only {
        seq!["diff-tree"@, "--no-commit-id"@, "-r"@, "--stat"@, hash]
    } else {
        seq!["show"@, hash]
    }
}

/// The git arguments that give the diff of a row.
pub fn diff_args(is_working: bool, hash: &String, stat_only: bool) -> (v: Vec<String>)
    ensures
        args_view(v@) == diff_args_spec(is_working, hash@, stat_only),
{
    if is_working {
        let v = words(&["diff", "HEAD"]);
        assert(args_view(v@) =~= seq!["diff"@, "HEAD"@]);
        v
    } else if stat_only {
        let mut v = words(&["diff-tree", "--no-commit-id", "-r", "--stat"]);
        push_string(&mut v, hash);
        assert(args_view(v@) =~= seq!["diff-tree"@, "--no-commit-id"@, "-r"@, "--stat"@, hash@]);
        v
    } else {
        let mut v = words(&["show"]);
        push_string(&mut v, hash);
        assert(args_view(v@) =~= seq!["show"@, hash@]);
        v
    }
}

/// The diff shown for one file: of the working tree against the index
/// (`git diff -- <file>`) or of the index against `HEAD`
/// (`git diff --cached -- <file>`) for the working-tree row, else the
/// commit's change to it (`git show <hash> -- <file>`).
pub open spec fn file_diff_args_spec(is_working: bool, staged: bool, hash: Seq<char>, file: Seq<char>) -> Seq<
    Seq<char>,
> {
    if is_working {
        if staged {
            seq!["diff"@, "--cached"@, "--"@, file]
        } else {
            seq!["diff"@, "--"@, file]
        }
    } else {
        seq!["show"@, hash, "--"@, file]
    }
}

/// The git arguments that give the diff of one file of a row.
pub fn file_diff_args(is_working: bool, staged: bool, hash: &String, file: &String) -> (v: Vec<String>)
    ensures
        args_view(v@) == file_diff_args_spec(is_working, staged, hash@, file@),
{
    if is_working {
        if staged {
            let mut v = words(&["diff", "--cached", "--"]);
            push_string(&mut v, file);
            assert(args_view(v@) =~= seq!["diff"@, "--cached"@, "--"@, file@]);
            v
        } else {
            let mut v = words(&["diff", "--"]);
            push_string(&mut v, file);
            assert(args_view(v@) =~= seq!["diff"@, "--"@, file@]);
            v
        }
    } else {
        let mut v = words(&["show"]);
        push_string(&mut v, hash);
        push_word(&mut v, "--");
        push_string(&mut v, file);
        assert(args_view(v@) =~= seq!["show"@, hash@, "--"@, file@]);
        v
    }
}

} // verus!
