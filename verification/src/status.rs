//! Working-tree status: the staged and unstaged files that
//! `git status --porcelain` reports, the changed files of a commit, and the
//! virtual row that stands for uncommitted changes.
use vstd::prelude::*;
use crate::commit::CommitRow;
use crate::text::{chars_of, lines, next_line, string_of};

verus! {

// ---------------------------------------------------------------------------
// `git status --porcelain`
// ---------------------------------------------------------------------------

/// How many bytes UTF-8 takes for `c`.
pub open spec fn utf8_len(c: char) -> nat {
    if (c as u32) < 0x80 {
        1
    } else if (c as u32) < 0x800 {
        2
    } else if (c as u32) < 0x10000 {
        3
    } else {
        4
    }
}

/// How many bytes UTF-8 takes for `s`.
pub open spec fn byte_len(s: Seq<char>) -> nat
    decreases s.len(),
{
    if s.len() == 0 {
        0
    } else {
        byte_len(s.drop_last()) + utf8_len(s.last())
    }
}

/// One status line: `XY path`, where a non-space `X` marks the path staged
/// and a non-space `Y` marks it changed in the working tree.
pub struct StatusEntry {
    pub staged: bool,
    pub unstaged: bool,
    pub file: Seq<char>,
}

/// How many characters make up the first three bytes of `line`, when the
/// third byte ends a character.
pub open spec fn three_byte_chars(line: Seq<char>) -> Option<int> {
    if line.len() >= 1 && byte_len(line.take(1)) == 3 {
        Some(1)
    } else if line.len() >= 2 && byte_len(line.take(2)) == 3 {
        Some(2)
    } else if line.len() >= 3 && byte_len(line.take(3)) == 3 {
        Some(3)
    } else {
        None
    }
}

/// What one line of the status says: nothing for a line shorter than three
/// bytes; else whether its first byte is not a space (staged), whether its
/// second byte is not a space (unstaged), and the path after three bytes.
pub open spec fn status_entry(line: Seq<char>) -> Option<StatusEntry> {
    if byte_len(line) < 3 {
        None
    } else {
        Some(
            StatusEntry {
                staged: line[0] != ' ',
                unstaged: if utf8_len(line[0]) == 1 {
                    line[1] != ' '
                } else {
                    true
                },
                file: match three_byte_chars(line) {
                    Some(k) => line.skip(k),
                    None => Seq::empty(),
                },
            },
        )
    }
}

/// A status line that can be read: short, or with a character ending at
/// its third byte.
pub open spec fn status_line_ok(line: Seq<char>) -> bool {
    byte_len(line) < 3 || three_byte_chars(line) is Some
}

/// The staged and the unstaged files that the status lines report, in order.
pub open spec fn status_files(ls: Seq<Seq<char>>) -> (Seq<Seq<char>>, Seq<Seq<char>>)
    decreases ls.len(),
{
    if ls.len() == 0 {
        (Seq::empty(), Seq::empty())
    } else {
        let (st, un) = status_files(ls.drop_last());
        match status_entry(ls.last()) {
            Some(e) => (
                if e.staged {
                    st.push(e.file)
                } else {
                    st
                },
                if e.unstaged {
                    un.push(e.file)
                } else {
                    un
                },
            ),
            None => (st, un),
        }
    }
}

pub open spec fn status_ok(ls: Seq<Seq<char>>) -> bool {
    forall|i: int| 0 <= i < ls.len() ==> status_line_ok(#[trigger] ls[i])
}

pub open spec fn strings_of(v: Seq<String>) -> Seq<Seq<char>> {
    v.map_values(|s: String| s@)
}

proof fn lemma_byte_len_push(s: Seq<char>, c: char)
    ensures
        byte_len(s.push(c)) == byte_len(s) + utf8_len(c),
{
    assert(s.push(c).drop_last() == s);
}

proof fn lemma_byte_len_prefix(s: Seq<char>, k: int)
    requires
        0 <= k <= s.len(),
    ensures
        byte_len(s.take(k)) <= byte_len(s),
        byte_len(s.take(k)) >= k,
    decreases s.len() - k,
{
    lemma_byte_len_lower(s.take(k));
    if k < s.len() {
        lemma_byte_len_prefix(s, k + 1);
        assert(s.take(k + 1) == s.take(k).push(s[k]));
        lemma_byte_len_push(s.take(k), s[k]);
    } else {
        assert(s.take(k) == s);
    }
}

proof fn lemma_byte_len_lower(s: Seq<char>)
    ensures
        byte_len(s) >= s.len(),
    decreases s.len(),
{
    if s.len() > 0 {
        lemma_byte_len_lower(s.drop_last());
    }
}

fn char_bytes(c: char) -> (n: usize)
    ensures
        n as nat == utf8_len(c),
{
    let u = c as u32;
    if u < 0x80 {
        1
    } else if u < 0x800 {
        2
    } else if u < 0x10000 {
        3
    } else {
        4
    }
}

/// Reads one status line `v[from..to]`: its entry, or `Err(())` when the
/// third byte does not end a character.
fn read_status_line(v: &Vec<char>, from: usize, to: usize) -> (r: Result<Option<(bool, bool, String)>, ()>)
    requires
        from <= to <= v@.len(),
    ensures
        ({
            let line = v@.subrange(from as int, to as int);
            match r {
                Ok(Some(t)) => status_line_ok(line) && status_entry(line) == Some(
                    StatusEntry { staged: t.0, unstaged: t.1, file: t.2@ },
                ),
                Ok(None) => status_line_ok(line) && status_entry(line) is None,
                Err(_) => !status_line_ok(line),
            }
        }),
{
    let ghost line = v@.subrange(from as int, to as int);
    // Bytes of up to the first three characters.
    let mut total: usize = 0;
    let mut k: usize = 0;
    let mut cut: Option<usize> = None;
    while k < 3 && from + k < to
        invariant
            from <= to <= v@.len(),
            line == v@.subrange(from as int, to as int),
            0 <= k <= 3,
            k <= line.len(),
            total as nat == byte_len(line.take(k as int)),
            total <= 4 * k,
            cut is Some ==> total >= 3,
            match cut {
                Some(c) => 1 <= c <= k && byte_len(line.take(c as int)) == 3 && (forall|j: int|
                    1 <= j < c ==> byte_len(line.take(j)) != 3),
                None => forall|j: int| 1 <= j <= k ==> #[trigger] byte_len(line.take(j)) != 3,
            },
        decreases 3 - k,
    {
        let c = v[from + k];
        proof {
            assert(line[k as int] == c);
            assert(line.take(k + 1) == line.take(k as int).push(c));
            lemma_byte_len_push(line.take(k as int), c);
        }
        total = total + char_bytes(c);
        k = k + 1;
        if total == 3 && cut.is_none() {
            cut = Some(k);
        }
    }
    proof {
        lemma_byte_len_prefix(line, k as int);
        if k < 3 {
            assert(line.take(k as int) == line);
        }
    }
    if total < 3 {
        return Ok(None);
    }
    proof {
        assert(byte_len(line) >= 3) by {
            lemma_byte_len_prefix(line, k as int);
        }
        assert(line.len() >= 1);
    }
    let c0 = v[from];
    assert(line[0] == c0);
    let staged = c0 != ' ';
    let unstaged = if char_bytes(c0) == 1 {
        proof {
            assert(line.len() >= 2) by {
                if line.len() < 2 {
                    assert(line.drop_last().len() == 0);
                    assert(byte_len(line.drop_last()) == 0);
                    assert(line.last() == c0);
                }
            }
            assert(line[1] == v@[from + 1]);
        }
        v[from + 1] != ' '
    } else {
        true
    };
    match cut {
        Some(c) => {
            let file = string_of(v, from + c, to);
            proof {
                assert(v@.subrange(from + c, to as int) == line.skip(c as int));
                assert(three_byte_chars(line) == Some(c as int)) by {
                    if c >= 2 {
                        assert(byte_len(line.take(1)) != 3);
                    }
                    if c >= 3 {
                        assert(byte_len(line.take(2)) != 3);
                    }
                    assert(c <= line.len());
                }
            }
            Ok(Some((staged, unstaged, file)))
        },
        None => {
            proof {
                assert forall|j: int| 1 <= j <= 3 && j <= line.len() implies byte_len(line.take(j))
                    != 3 by {}
                assert(three_byte_chars(line) is None);
            }
            Err(())
        },
    }
}

/// The staged and unstaged files of `git status --porcelain` output, or
/// `None` when some line cannot be cut after its third byte.
pub fn try_parse_status(text: &str) -> (r: Option<(Vec<String>, Vec<String>)>)
    ensures
        match r {
            Some(t) => status_ok(lines(text@)) && (strings_of(t.0@), strings_of(t.1@)) == status_files(
                lines(text@),
            ),
            None => !status_ok(lines(text@)),
        },
{
    let v = chars_of(text);
    let ghost all = lines(v@);
    let ghost mut done: Seq<Seq<char>> = Seq::empty();
    let mut staged: Vec<String> = Vec::new();
    let mut unstaged: Vec<String> = Vec::new();
    let mut pos: usize = 0;
    proof {
        assert(v@.skip(0) == v@);
        assert(Seq::<Seq<char>>::empty() + lines(v@) == lines(v@));
    }
    while pos < v.len()
        invariant
            0 <= pos <= v@.len(),
            v@ == text@,
            all == lines(v@),
            all == done + lines(v@.skip(pos as int)),
            (strings_of(staged@), strings_of(unstaged@)) == status_files(done),
            status_ok(done),
        decreases v@.len() - pos,
    {
        let (end, next) = next_line(&v, pos);
        let ghost line = v@.subrange(pos as int, end as int);
        let ghost longer = done.push(line);
        let ghost st0 = strings_of(staged@);
        let ghost un0 = strings_of(unstaged@);
        proof {
            assert(longer.drop_last() == done);
            assert(longer.last() == line);
            assert(all == longer + lines(v@.skip(next as int)));
        }
        match read_status_line(&v, pos, end) {
            Err(_) => {
                proof {
                    let i = done.len() as int;
                    assert(all[i] == line);
                }
                return None;
            },
            Ok(None) => {},
            Ok(Some((s, u, file))) => {
                if s && u {
                    staged.push(file.clone());
                    unstaged.push(file);
                } else if s {
                    staged.push(file);
                } else if u {
                    unstaged.push(file);
                }
                proof {
                    let f = status_entry(line)->0.file;
                    if s {
                        assert(strings_of(staged@) =~= st0.push(f));
                    } else {
                        assert(strings_of(staged@) =~= st0);
                    }
                    if u {
                        assert(strings_of(unstaged@) =~= un0.push(f));
                    } else {
                        assert(strings_of(unstaged@) =~= un0);
                    }
                }
            },
        }
        proof {
            assert forall|i: int| 0 <= i < longer.len() implies status_line_ok(#[trigger] longer[i]) by {
                if i < done.len() {
                    assert(longer[i] == done[i]);
                }
            }
            done = longer;
        }
        pos = next;
    }
    proof {
        assert(v@.skip(pos as int).len() == 0);
        assert(lines(v@.skip(pos as int)) == Seq::<Seq<char>>::empty());
        assert(done + Seq::<Seq<char>>::empty() == done);
    }
    Some((staged, unstaged))
}

/// The staged and unstaged files of `git status --porcelain` output whose
/// lines can all be read.
pub fn parse_status(text: &str) -> (r: (Vec<String>, Vec<String>))
    requires
        status_ok(lines(text@)),
    ensures
        (strings_of(r.0@), strings_of(r.1@)) == status_files(lines(text@)),
{
    match try_parse_status(text) {
        Some(t) => t,
        None => (Vec::new(), Vec::new()),
    }
}

// ---------------------------------------------------------------------------
// Changed files
// ---------------------------------------------------------------------------

proof fn lemma_ascii_bytes(l: Seq<char>, k: int)
    requires
        0 <= k <= l.len(),
        forall|j: int| 0 <= j < k ==> (l[j] as u32) < 0x80,
    ensures
        byte_len(l.take(k)) == k,
    decreases k,
{
    if k > 0 {
        lemma_ascii_bytes(l, k - 1);
        assert(l.take(k).drop_last() == l.take(k - 1));
        assert(l.take(k).last() == l[k - 1]);
    }
}

proof fn lemma_ascii_status_line(l: Seq<char>)
    requires
        forall|k: int| 0 <= k < l.len() && k < 3 ==> (l[k] as u32) < 0x80,
    ensures
        status_line_ok(l),
        l.len() < 3 ==> status_entry(l) is None,
        l.len() >= 3 ==> status_entry(l) == Some(
            StatusEntry { staged: l[0] != ' ', unstaged: l[1] != ' ', file: l.skip(3) },
        ),
{
    if l.len() < 3 {
        lemma_ascii_bytes(l, l.len() as int);
        assert(l.take(l.len() as int) == l);
    } else {
        lemma_ascii_bytes(l, 1);
        lemma_ascii_bytes(l, 2);
        lemma_ascii_bytes(l, 3);
        lemma_byte_len_prefix(l, 3);
        assert(three_byte_chars(l) == Some(3int));
    }
}

/// For status lines whose first three characters are ASCII, a line of at
/// least three bytes `XY path` puts `path` in the staged list exactly when
/// `X` is not a space and in the unstaged list exactly when `Y` is not a
/// space, in line order; shorter lines are skipped, and nothing fails.
pub proof fn law_status_lists(ls: Seq<Seq<char>>)
    requires
        forall|i: int, k: int|
            0 <= i < ls.len() && 0 <= k < ls[i].len() && k < 3 ==> (#[trigger] ls[i][k] as u32) < 0x80,
    ensures
        status_ok(ls),
        status_files(ls).0 == ls.filter(|l: Seq<char>| l.len() >= 3 && l[0] != ' ').map_values(
            |l: Seq<char>| l.skip(3),
        ),
        status_files(ls).1 == ls.filter(|l: Seq<char>| l.len() >= 3 && l[1] != ' ').map_values(
            |l: Seq<char>| l.skip(3),
        ),
    decreases ls.len(),
{
    reveal_with_fuel(Seq::filter, 1);
    if ls.len() > 0 {
        let t = ls.drop_last();
        assert forall|i: int, k: int|
            0 <= i < t.len() && 0 <= k < t[i].len() && k < 3 implies (#[trigger] t[i][k] as u32) < 0x80 by {
            assert(t[i] == ls[i]);
            assert(ls[i][k] == t[i][k]);
        }
        law_status_lists(t);
        let l = ls.last();
        assert forall|k: int| 0 <= k < l.len() && k < 3 implies (l[k] as u32) < 0x80 by {
            assert(ls[ls.len() - 1][k] == l[k]);
        }
        lemma_ascii_status_line(l);
        let p0 = |l: Seq<char>| l.len() >= 3 && l[0] != ' ';
        let p1 = |l: Seq<char>| l.len() >= 3 && l[1] != ' ';
        let f = |l: Seq<char>| l.skip(3);
        assert(t.filter(p0).push(l).map_values(f) =~= t.filter(p0).map_values(f).push(f(l)));
        assert(t.filter(p1).push(l).map_values(f) =~= t.filter(p1).map_values(f).push(f(l)));
        assert forall|i: int| 0 <= i < ls.len() implies status_line_ok(#[trigger] ls[i]) by {
            if i < t.len() {
                assert(t[i] == ls[i]);
            }
        }
    }
}

/// The non-empty lines of `s`, in order.
pub open spec fn nonempty_lines(ls: Seq<Seq<char>>) -> Seq<Seq<char>>
    decreases ls.len(),
{
    if ls.len() == 0 {
        Seq::empty()
    } else if ls.last().len() > 0 {
        nonempty_lines(ls.drop_last()).push(ls.last())
    } else {
        nonempty_lines(ls.drop_last())
    }
}

/// The changed-file list is exactly the non-empty lines, in order: every
/// non-empty line is listed, whatever it starts with, and nothing else.
pub proof fn law_name_list_keeps_every_nonempty_line(ls: Seq<Seq<char>>)
    ensures
        nonempty_lines(ls) == ls.filter(|l: Seq<char>| l.len() > 0),
    decreases ls.len(),
{
    reveal_with_fuel(Seq::filter, 1);
    if ls.len() > 0 {
        law_name_list_keeps_every_nonempty_line(ls.drop_last());
    }
}

/// The files a commit changed, from `git diff-tree --name-only` output: its
/// non-empty lines.
pub fn parse_name_list(text: &str) -> (files: Vec<String>)
    ensures
        strings_of(files@) == nonempty_lines(lines(text@)),
{
    let v = chars_of(text);
    let ghost all = lines(v@);
    let ghost mut done: Seq<Seq<char>> = Seq::empty();
    let mut files: Vec<String> = Vec::new();
    let mut pos: usize = 0;
    proof {
        assert(v@.skip(0) == v@);
        assert(Seq::<Seq<char>>::empty() + lines(v@) == lines(v@));
    }
    while pos < v.len()
        invariant
            0 <= pos <= v@.len(),
            v@ == text@,
            all == lines(v@),
            all == done + lines(v@.skip(pos as int)),
            strings_of(files@) == nonempty_lines(done),
        decreases v@.len() - pos,
    {
        let (end, next) = next_line(&v, pos);
        let ghost line = v@.subrange(pos as int, end as int);
        let ghost before = strings_of(files@);
        proof {
            assert(done.push(line).drop_last() == done);
            assert(done.push(line).last() == line);
            assert(all == done.push(line) + lines(v@.skip(next as int)));
        }
        if end > pos {
            files.push(string_of(&v, pos, end));
            proof {
                assert(strings_of(files@) =~= before.push(line));
            }
        }
        proof {
            done = done.push(line);
        }
        pos = next;
    }
    proof {
        assert(v@.skip(pos as int).len() == 0);
        assert(lines(v@.skip(pos as int)) == Seq::<Seq<char>>::empty());
        assert(done + Seq::<Seq<char>>::empty() == done);
    }
    files
}

/// The staged files followed by each unstaged file not already listed.
pub open spec fn merged_files(staged: Seq<Seq<char>>, unstaged: Seq<Seq<char>>) -> Seq<Seq<char>>
    decreases unstaged.len(),
{
    if unstaged.len() == 0 {
        staged
    } else {
        let m = merged_files(staged, unstaged.drop_last());
        if m.contains(unstaged.last()) {
            m
        } else {
            m.push(unstaged.last())
        }
    }
}

/// The changed files of the working-tree row list the staged files first,
/// as they are, then each unstaged file that is not listed yet, once; every
/// file of either list is listed and nothing else is.
pub proof fn law_merged_files(staged: Seq<Seq<char>>, unstaged: Seq<Seq<char>>)
    ensures
        ({
            let m = merged_files(staged, unstaged);
            &&& staged.len() <= m.len()
            &&& m.take(staged.len() as int) == staged
            &&& forall|f: Seq<char>| m.contains(f) <==> (staged.contains(f) || unstaged.contains(f))
            &&& forall|i: int, j: int|
                staged.len() <= i < m.len() && 0 <= j < m.len() && i != j ==> m[i] != m[j]
        }),
    decreases unstaged.len(),
{
    if unstaged.len() == 0 {
        assert(staged.take(staged.len() as int) == staged);
    } else {
        let u = unstaged.drop_last();
        let x = unstaged.last();
        law_merged_files(staged, u);
        let m0 = merged_files(staged, u);
        let m = merged_files(staged, unstaged);
        assert forall|f: Seq<char>| unstaged.contains(f) <==> (u.contains(f) || f == x) by {
            if unstaged.contains(f) {
                let k = choose|k: int| 0 <= k < unstaged.len() && unstaged[k] == f;
                if k < u.len() {
                    assert(u[k] == f);
                }
            }
            if u.contains(f) {
                let k = choose|k: int| 0 <= k < u.len() && u[k] == f;
                assert(unstaged[k] == f);
            }
            if f == x {
                assert(unstaged[unstaged.len() - 1] == f);
            }
        }
        if !m0.contains(x) {
            assert(m == m0.push(x));
            assert(m.take(staged.len() as int) == m0.take(staged.len() as int));
            assert forall|f: Seq<char>| m.contains(f) <==> (m0.contains(f) || f == x) by {
                if m.contains(f) {
                    let k = choose|k: int| 0 <= k < m.len() && m[k] == f;
                    if k < m0.len() {
                        assert(m0[k] == f);
                    }
                }
                if m0.contains(f) {
                    let k = choose|k: int| 0 <= k < m0.len() && m0[k] == f;
                    assert(m[k] == f);
                }
                if f == x {
                    assert(m[m0.len() as int] == f);
                }
            }
            assert forall|i: int, j: int|
                staged.len() <= i < m.len() && 0 <= j < m.len() && i != j implies m[i] != m[j] by {
                if i == m0.len() as int {
                    assert(m0[j] != x) by {
                        if m0[j] == x {
                            assert(m0.contains(x));
                        }
                    }
                } else if j == m0.len() as int {
                    assert(m0[i] != x) by {
                        if m0[i] == x {
                            assert(m0.contains(x));
                        }
                    }
                } else {
                    assert(m[i] == m0[i] && m[j] == m0[j]);
                }
            }
        }
    }
}

fn contains_string(v: &Vec<String>, s: &String) -> (b: bool)
    ensures
        b == strings_of(v@).contains(s@),
{
    let mut i: usize = 0;
    while i < v.len()
        invariant
            0 <= i <= v@.len(),
            forall|j: int| 0 <= j < i ==> v@[j]@ != s@,
        decreases v@.len() - i,
    {
        if v[i] == *s {
            assert(strings_of(v@)[i as int] == s@);
            return true;
        }
        i = i + 1;
    }
    proof {
        if strings_of(v@).contains(s@) {
            let j = choose|j: int| 0 <= j < strings_of(v@).len() && strings_of(v@)[j] == s@;
            assert(v@[j]@ == s@);
        }
    }
    false
}

/// The files of the working-tree row: staged ones, then unstaged ones not
/// listed yet.
pub fn merge_changed_files(staged: &Vec<String>, unstaged: &Vec<String>) -> (files: Vec<String>)
    ensures
        strings_of(files@) == merged_files(strings_of(staged@), strings_of(unstaged@)),
{
    let mut files: Vec<String> = Vec::new();
    let mut i: usize = 0;
    while i < staged.len()
        invariant
            0 <= i <= staged@.len(),
            strings_of(files@) == strings_of(staged@).take(i as int),
        decreases staged@.len() - i,
    {
        let ghost before = strings_of(files@);
        files.push(staged[i].clone());
        assert(strings_of(files@) =~= before.push(staged@[i as int]@));
        assert(strings_of(staged@).take(i + 1) =~= strings_of(staged@).take(i as int).push(
            staged@[i as int]@,
        ));
        i = i + 1;
    }
    assert(strings_of(staged@).take(staged@.len() as int) == strings_of(staged@));
    let ghost us = strings_of(unstaged@);
    let mut j: usize = 0;
    assert(us.take(0) =~= Seq::<Seq<char>>::empty());
    while j < unstaged.len()
        invariant
            0 <= j <= unstaged@.len(),
            us == strings_of(unstaged@),
            strings_of(files@) == merged_files(strings_of(staged@), us.take(j as int)),
        decreases unstaged@.len() - j,
    {
        assert(us.take(j + 1).drop_last() == us.take(j as int));
        assert(us.take(j + 1).last() == unstaged@[j as int]@);
        let ghost before = strings_of(files@);
        if !contains_string(&files, &unstaged[j]) {
            files.push(unstaged[j].clone());
            assert(strings_of(files@) =~= before.push(unstaged@[j as int]@));
        }
        j = j + 1;
    }
    assert(us.take(unstaged@.len() as int) == us);
    files
}

// ---------------------------------------------------------------------------
// The working-tree row
// ---------------------------------------------------------------------------

/// What the uncommitted changes are.
pub enum WorkingKind {
    /// Only staged changes.
    Staged,
    /// Only unstaged changes.
    Unstaged,
    /// Both, or neither.
    Mixed,
}

pub open spec fn working_kind_of(has_staged: bool, has_unstaged: bool) -> WorkingKind {
    if has_staged && !has_unstaged {
        WorkingKind::Staged
    } else if !has_staged && has_unstaged {
        WorkingKind::Unstaged
    } else {
        WorkingKind::Mixed
    }
}

/// The kind of uncommitted changes.
pub fn working_kind(has_staged: bool, has_unstaged: bool) -> (k: WorkingKind)
    ensures
        k == working_kind_of(has_staged, has_unstaged),
{
    match (has_staged, has_unstaged) {
        (true, false) => WorkingKind::Staged,
        (false, true) => WorkingKind::Unstaged,
        _ => WorkingKind::Mixed,
    }
}

pub open spec fn working_summary_text(k: WorkingKind) -> Seq<char> {
    match k {
        WorkingKind::Staged => "staged changes"@,
        WorkingKind::Unstaged => "unstaged changes"@,
        WorkingKind::Mixed => "working tree changes"@,
    }
}

pub open spec fn working_pill_text(k: WorkingKind) -> Seq<char> {
    match k {
        WorkingKind::Staged => "STAGED"@,
        WorkingKind::Unstaged => "UNSTAGED"@,
        WorkingKind::Mixed => "WORKING"@,
    }
}

/// The message of the working-tree row.
pub fn working_summary(has_staged: bool, has_unstaged: bool) -> (s: String)
    ensures
        s@ == working_summary_text(working_kind_of(has_staged, has_unstaged)),
{
    match working_kind(has_staged, has_unstaged) {
        WorkingKind::Staged => "staged changes".to_owned(),
        WorkingKind::Unstaged => "unstaged changes".to_owned(),
        WorkingKind::Mixed => "working tree changes".to_owned(),
    }
}

/// The pill of the working-tree row.
pub fn working_pill(has_staged: bool, has_unstaged: bool) -> (s: String)
    ensures
        s@ == working_pill_text(working_kind_of(has_staged, has_unstaged)),
{
    match working_kind(has_staged, has_unstaged) {
        WorkingKind::Staged => "STAGED".to_owned(),
        WorkingKind::Unstaged => "UNSTAGED".to_owned(),
        WorkingKind::Mixed => "WORKING".to_owned(),
    }
}

/// The index of the first row `HEAD` points at.
pub open spec fn first_head(rows: Seq<CommitRow>) -> Option<int> {
    if exists|i: int| 0 <= i < rows.len() && rows[i].is_head {
        Some(
            choose|i: int|
                0 <= i < rows.len() && rows[i].is_head && forall|j: int| 0 <= j < i ==> !rows[j].is_head,
        )
    } else {
        None
    }
}

proof fn lemma_first_head_is(rows: Seq<CommitRow>, h: int)
    requires
        0 <= h < rows.len(),
        rows[h].is_head,
        forall|g: int| 0 <= g < h ==> !rows[g].is_head,
    ensures
        first_head(rows) == Some(h),
{
    let c = choose|c: int|
        0 <= c < rows.len() && rows[c].is_head && forall|j: int| 0 <= j < c ==> !rows[j].is_head;
    assert(rows[h].is_head && forall|j: int| 0 <= j < h ==> !rows[j].is_head);
    assert(c == h) by {
        if c < h {
            assert(!rows[c].is_head);
        }
        if h < c {
            assert(!rows[h].is_head);
        }
    }
}

/// The all-zero id of the working-tree row.
pub open spec fn zero_id() -> Seq<char> {
    Seq::new(40, |i: int| '0')
}

/// The working-tree row drawn above the commit `HEAD` points at.
pub open spec fn working_row_ok(w: CommitRow, head: CommitRow, summary: Seq<char>) -> bool {
    &&& w.oid@ == zero_id()
    &&& w.short@.len() == 0
    &&& w.lane == head.lane
    &&& w.passthrough@.len() == 0
    &&& w.parent_lanes@ == seq![head.lane]
    &&& w.author@.len() == 0
    &&& w.email@.len() == 0
    &&& w.time == 0
    &&& w.offset_min == 0
    &&& w.summary@ == summary
    &&& w.branches@.len() == 0
    &&& w.tags@.len() == 0
    &&& !w.is_head
    &&& w.is_working
}

/// The working-tree row sits on the lane of the first row `HEAD` points
/// at, with one edge into that same lane, above all the rows as they were;
/// without changes, or without a `HEAD` row, nothing is added.
pub proof fn law_working_row_on_head_lane(
    before: Seq<CommitRow>,
    after: Seq<CommitRow>,
    has_staged: bool,
    has_unstaged: bool,
    h: int,
)
    requires
        (has_staged || has_unstaged) && first_head(before) is Some ==> {
            &&& after.len() == before.len() + 1
            &&& after.skip(1) == before
            &&& working_row_ok(
                after[0],
                before[first_head(before)->0],
                working_summary_text(working_kind_of(has_staged, has_unstaged)),
            )
        },
        !((has_staged || has_unstaged) && first_head(before) is Some) ==> after == before,
        0 <= h < before.len(),
        before[h].is_head,
        forall|g: int| 0 <= g < h ==> !before[g].is_head,
    ensures
        (has_staged || has_unstaged) ==> {
            &&& after.len() == before.len() + 1
            &&& after[0].lane == before[h].lane
            &&& after[0].parent_lanes@ == seq![before[h].lane]
            &&& after[0].passthrough@.len() == 0
            &&& after[0].is_working
            &&& !after[0].is_head
            &&& forall|i: int| 0 <= i < before.len() ==> after[i + 1] == before[i]
        },
        !(has_staged || has_unstaged) ==> after == before,
{
    lemma_first_head_is(before, h);
    if has_staged || has_unstaged {
        assert forall|i: int| 0 <= i < before.len() implies after[i + 1] == before[i] by {
            assert(after.skip(1)[i] == after[i + 1]);
        }
    }
}

fn zero_oid() -> (s: String)
    ensures
        s@ == zero_id(),
{
    let mut s = String::new();
    let mut i: usize = 0;
    while i < 40
        invariant
            0 <= i <= 40,
            s@ == Seq::new(i as nat, |k: int| '0'),
        decreases 40 - i,
    {
        crate::text::push_char(&mut s, '0');
        assert(s@ =~= Seq::new((i + 1) as nat, |k: int| '0'));
        i = i + 1;
    }
    s
}

/// When there are uncommitted changes and a row `HEAD` points at, puts the
/// working-tree row first, in `HEAD`'s lane with an edge to it; else
/// leaves the rows as they are.
pub fn insert_working_row(rows: &mut Vec<CommitRow>, has_staged: bool, has_unstaged: bool)
    ensures
        (has_staged || has_unstaged) && first_head(old(rows)@) is Some ==> {
            &&& final(rows)@.len() == old(rows)@.len() + 1
            &&& final(rows)@.skip(1) == old(rows)@
            &&& working_row_ok(
                final(rows)@[0],
                old(rows)@[first_head(old(rows)@)->0],
                working_summary_text(working_kind_of(has_staged, has_unstaged)),
            )
        },
        !((has_staged || has_unstaged) && first_head(old(rows)@) is Some) ==> final(rows)@ == old(
            rows,
        )@,
        forall|h: int|
            #![trigger old(rows)@[h]]
            (has_staged || has_unstaged) && 0 <= h < old(rows)@.len() && old(rows)@[h].is_head
                && (forall|g: int| 0 <= g < h ==> !old(rows)@[g].is_head) ==> {
                &&& final(rows)@.len() == old(rows)@.len() + 1
                &&& final(rows)@[0].lane == old(rows)@[h].lane
                &&& final(rows)@[0].parent_lanes@ == seq![old(rows)@[h].lane]
                &&& final(rows)@[0].is_working
                &&& final(rows)@.skip(1) == old(rows)@
            },
{
    proof {
        assert forall|h: int|
            0 <= h < old(rows)@.len() && old(rows)@[h].is_head && (forall|g: int|
                0 <= g < h ==> !old(rows)@[g].is_head) implies first_head(old(rows)@) == Some(h) by {
            lemma_first_head_is(old(rows)@, h);
        }
    }
    if !(has_staged || has_unstaged) {
        return;
    }
    let mut i: usize = 0;
    while i < rows.len() && !rows[i].is_head
        invariant
            0 <= i <= rows@.len(),
            rows@ == old(rows)@,
            forall|j: int| 0 <= j < i ==> !rows@[j].is_head,
        decreases rows@.len() - i,
    {
        i = i + 1;
    }
    if i == rows.len() {
        return;
    }
    proof {
        let h = first_head(old(rows)@);
        assert(rows@[i as int].is_head);
        let c = choose|c: int|
            0 <= c < rows@.len() && rows@[c].is_head && forall|j: int| 0 <= j < c ==> !rows@[j].is_head;
        assert(c == i) by {
            if c < i {
                assert(!rows@[c].is_head);
            }
            if i < c {
                assert(!rows@[i as int].is_head);
            }
        }
    }
    let head_lane = rows[i].lane;
    let mut parents: Vec<usize> = Vec::new();
    parents.push(head_lane);
    let row = CommitRow {
        oid: zero_oid(),
        short: String::new(),
        lane: head_lane,
        passthrough: Vec::new(),
        parent_lanes: parents,
        author: String::new(),
        email: String::new(),
        time: 0,
        offset_min: 0,
        summary: working_summary(has_staged, has_unstaged),
        branches: Vec::new(),
        tags: Vec::new(),
        is_head: false,
        is_working: true,
    };
    rows.insert(0, row);
    proof {
        assert(rows@.skip(1) =~= old(rows)@);
        assert(parents@ == seq![head_lane]);
    }
}

} // verus!
