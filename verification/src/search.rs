//! Finding the next commit whose message, author or short id contains the
//! search text.
use vstd::prelude::*;
use crate::commit::CommitRow;
use crate::text::{chars_of, contains_chars, contains_seq};

verus! {

/// What `str::to_lowercase` gives for `s`.
pub uninterp spec fn lowercase(s: Seq<char>) -> Seq<char>;

/// Calls `str::to_lowercase`. The contract claims only that the result is
/// the named `lowercase` of the argument; the Unicode case mapping itself is
/// not stated.
#[verifier::external_body]
fn to_lowercase(s: &str) -> (r: String)
    ensures
        r@ == lowercase(s@),
{
    s.to_lowercase()
}

/// The row shows the query `q` (already lower-cased): in its lower-cased
/// message or author, or in its short id as it is.
pub open spec fn row_matches(r: CommitRow, q: Seq<char>) -> bool {
    contains_seq(lowercase(r.summary@), q) || contains_seq(lowercase(r.author@), q) || contains_seq(
        r.short@,
        q,
    )
}

/// Where a search starts: the selected row, or the first.
pub open spec fn start_of(selected: Option<usize>) -> int {
    match selected {
        Some(s) => s as int,
        None => 0,
    }
}

/// The row `d` steps after `start`, going round.
pub open spec fn step_row(n: int, start: int, d: int) -> int {
    (start + d) % n
}

/// The fewest steps after `start`, going round and ending at `start`
/// itself, to a row that shows `q`.
pub open spec fn next_match_steps(rows: Seq<CommitRow>, q: Seq<char>, start: int) -> Option<int> {
    let n = rows.len() as int;
    if exists|d: int| 1 <= d <= n && row_matches(rows[step_row(n, start, d)], q) {
        Some(
            choose|d: int|
                1 <= d <= n && row_matches(rows[step_row(n, start, d)], q) && forall|e: int|
                    1 <= e < d ==> !row_matches(rows[step_row(n, start, e)], q),
        )
    } else {
        None
    }
}

/// The selection after searching for `search` from `selected`.
pub open spec fn search_result(
    rows: Seq<CommitRow>,
    search: Seq<char>,
    selected: Option<usize>,
) -> Option<usize> {
    let start = match selected {
        Some(s) => s as int,
        None => 0,
    };
    if search.len() == 0 || rows.len() == 0 {
        selected
    } else {
        match next_match_steps(rows, lowercase(search), start) {
            Some(d) => Some(step_row(rows.len() as int, start, d) as usize),
            None => selected,
        }
    }
}

/// Searching lands on a row that shows the query whenever some row does,
/// and otherwise keeps the selection.
pub proof fn law_search_lands_on_match(rows: Seq<CommitRow>, search: Seq<char>, selected: Option<usize>)
    requires
        search.len() > 0,
        rows.len() > 0,
        rows.len() <= usize::MAX,
    ensures
        (exists|i: int| 0 <= i < rows.len() && row_matches(#[trigger] rows[i], lowercase(search)))
            ==> (search_result(rows, search, selected) matches Some(r) && r < rows.len()
            && row_matches(rows[r as int], lowercase(search))),
        !(exists|i: int| 0 <= i < rows.len() && row_matches(#[trigger] rows[i], lowercase(search)))
            ==> search_result(rows, search, selected) == selected,
{
    let q = lowercase(search);
    let n = rows.len() as int;
    let start: int = match selected {
        Some(s) => s as int,
        None => 0,
    };
    if exists|i: int| 0 <= i < rows.len() && row_matches(#[trigger] rows[i], q) {
        let i = choose|i: int| 0 <= i < rows.len() && row_matches(#[trigger] rows[i], q);
        let s = start % n;
        let d = if i > s {
            i - s
        } else {
            i - s + n
        };
        assert(0 <= s < n) by (nonlinear_arith)
            requires
                n > 0,
                s == start % n,
        ;
        assert(start == (start / n) * n + s) by (nonlinear_arith)
            requires
                n > 0,
                s == start % n,
        ;
        assert(step_row(n, start, d) == i) by (nonlinear_arith)
            requires
                n > 0,
                0 <= s < n,
                0 <= i < n,
                start == (start / n) * n + s,
                d == (if i > s {
                    i - s
                } else {
                    i - s + n
                }),
        {
            if i > s {
                assert(start + d == (start / n) * n + i);
            } else {
                assert(start + d == (start / n + 1) * n + i);
            }
        }
        assert(1 <= d <= n);
        assert(row_matches(rows[step_row(n, start, d)], q));
        let c = choose|c: int|
            1 <= c <= n && row_matches(rows[step_row(n, start, c)], q) && forall|e: int|
                1 <= e < c ==> !row_matches(rows[step_row(n, start, e)], q);
        lemma_least_step(rows, q, start, d);
        assert(0 <= step_row(n, start, c) < n) by (nonlinear_arith)
            requires
                n > 0,
        ;
        assert(next_match_steps(rows, q, start) == Some(c));
        let r = step_row(n, start, c) as usize;
        assert(r as int == step_row(n, start, c));
        assert(search_result(rows, search, selected) == Some(r));
        assert(row_matches(rows[r as int], q));
    } else {
        assert(!exists|d: int| 1 <= d <= n && row_matches(rows[step_row(n, start, d)], q)) by {
            if exists|d: int| 1 <= d <= n && row_matches(rows[step_row(n, start, d)], q) {
                let d = choose|d: int| 1 <= d <= n && row_matches(rows[step_row(n, start, d)], q);
                assert(0 <= step_row(n, start, d) < n) by (nonlinear_arith)
                    requires
                        n > 0,
                ;
            }
        }
    }
}

proof fn lemma_some_step(rows: Seq<CommitRow>, q: Seq<char>, start: int, i: int)
    requires
        0 <= i < rows.len(),
        0 <= start,
        row_matches(rows[i], q),
    ensures
        exists|d: int|
            1 <= d <= rows.len() && #[trigger] row_matches(rows[step_row(rows.len() as int, start, d)], q),
{
    let n = rows.len() as int;
    let s = start % n;
    let d = if i > s {
        i - s
    } else {
        i - s + n
    };
    assert(0 <= s < n) by (nonlinear_arith)
        requires
            n > 0,
            s == start % n,
    ;
    assert(start == (start / n) * n + s) by (nonlinear_arith)
        requires
            n > 0,
            s == start % n,
    ;
    assert(step_row(n, start, d) == i) by (nonlinear_arith)
        requires
            n > 0,
            0 <= s < n,
            0 <= i < n,
            start == (start / n) * n + s,
            d == (if i > s {
                i - s
            } else {
                i - s + n
            }),
    {
        if i > s {
            assert(start + d == (start / n) * n + i);
        } else {
            assert(start + d == (start / n + 1) * n + i);
        }
    }
    assert(row_matches(rows[step_row(n, start, d)], q));
}

/// Some row among `rows` contains `q` in its short id, or in its
/// lower-cased message or author.
proof fn lemma_matches_iff(r: CommitRow, q: Seq<char>)
    ensures
        row_matches(r, q) == (contains_seq(r.short@, q) || contains_seq(lowercase(r.summary@), q)
            || contains_seq(lowercase(r.author@), q)),
{
}

/// Searching for a non-empty text selects, going round from the
/// selection, the first row whose short id, lower-cased message or
/// lower-cased author contains the lower-cased text; a row whose short id
/// alone contains it is found too. When no row contains it the selection
/// stays.
pub proof fn law_search_finds_text(rows: Seq<CommitRow>, search: Seq<char>, selected: Option<usize>)
    requires
        search.len() > 0,
        rows.len() > 0,
        rows.len() <= usize::MAX,
    ensures
        (exists|i: int|
            #![trigger rows[i]]
            0 <= i < rows.len() && (contains_seq(rows[i].short@, lowercase(search)) || contains_seq(
                lowercase(rows[i].summary@),
                lowercase(search),
            ) || contains_seq(lowercase(rows[i].author@), lowercase(search)))) ==> (search_result(
            rows,
            search,
            selected,
        ) matches Some(r) && r < rows.len() && (contains_seq(rows[r as int].short@, lowercase(search))
            || contains_seq(lowercase(rows[r as int].summary@), lowercase(search)) || contains_seq(
            lowercase(rows[r as int].author@),
            lowercase(search),
        ))),
        (exists|i: int|
            #![trigger rows[i]]
            0 <= i < rows.len() && (contains_seq(rows[i].short@, lowercase(search)) || contains_seq(
                lowercase(rows[i].summary@),
                lowercase(search),
            ) || contains_seq(lowercase(rows[i].author@), lowercase(search)))) ==> exists|d: int|
            #![trigger step_row(rows.len() as int, start_of(selected), d)]
            1 <= d <= rows.len() && search_result(rows, search, selected) == Some(
                step_row(rows.len() as int, start_of(selected), d) as usize,
            ) && forall|e: int|
                #![trigger step_row(rows.len() as int, start_of(selected), e)]
                1 <= e < d ==> !(contains_seq(
                    rows[step_row(rows.len() as int, start_of(selected), e)].short@,
                    lowercase(search),
                ) || contains_seq(
                    lowercase(rows[step_row(rows.len() as int, start_of(selected), e)].summary@),
                    lowercase(search),
                ) || contains_seq(
                    lowercase(rows[step_row(rows.len() as int, start_of(selected), e)].author@),
                    lowercase(search),
                )),
        !(exists|i: int|
            #![trigger rows[i]]
            0 <= i < rows.len() && (contains_seq(rows[i].short@, lowercase(search)) || contains_seq(
                lowercase(rows[i].summary@),
                lowercase(search),
            ) || contains_seq(lowercase(rows[i].author@), lowercase(search)))) ==> search_result(
            rows,
            search,
            selected,
        ) == selected,
{
    let q = lowercase(search);
    let n = rows.len() as int;
    let start: int = match selected {
        Some(s) => s as int,
        None => 0,
    };
    law_search_lands_on_match(rows, search, selected);
    assert forall|i: int| 0 <= i < n implies #[trigger] row_matches(rows[i], q) == (contains_seq(
        rows[i].short@,
        q,
    ) || contains_seq(lowercase(rows[i].summary@), q) || contains_seq(
        lowercase(rows[i].author@),
        q,
    )) by {
        lemma_matches_iff(rows[i], q);
    }
    if exists|i: int| 0 <= i < n && #[trigger] row_matches(rows[i], q) {
        let i = choose|i: int| 0 <= i < n && #[trigger] row_matches(rows[i], q);
        lemma_some_step(rows, q, start, i);
        let d0 = choose|d: int| 1 <= d <= n && #[trigger] row_matches(rows[step_row(n, start, d)], q);
        lemma_least_step(rows, q, start, d0);
        let r = search_result(rows, search, selected)->0;
        assert(next_match_steps(rows, q, start) is Some);
        let d = next_match_steps(rows, q, start)->0;
        assert(1 <= d <= n && row_matches(rows[step_row(n, start, d)], q) && forall|e: int|
            1 <= e < d ==> !row_matches(rows[step_row(n, start, e)], q));
        assert(0 <= step_row(n, start, d) < n) by (nonlinear_arith)
            requires
                n > 0,
        ;
        assert(r as int == step_row(n, start, d));
        assert forall|e: int| 1 <= e < d implies !(contains_seq(rows[step_row(n, start, e)].short@, q)
            || contains_seq(lowercase(rows[step_row(n, start, e)].summary@), q)
            || contains_seq(lowercase(rows[step_row(n, start, e)].author@), q)) by {
            assert(0 <= step_row(n, start, e) < n) by (nonlinear_arith)
                requires
                    n > 0,
            ;
            assert(!row_matches(rows[step_row(n, start, e)], q));
            lemma_matches_iff(rows[step_row(n, start, e)], q);
        }
        lemma_matches_iff(rows[r as int], q);
        assert(start == start_of(selected));
        assert(search_result(rows, search, selected) == Some(step_row(n, start, d) as usize));
    } else {
        assert(!exists|i: int|
            #![trigger rows[i]]
            0 <= i < n && (contains_seq(rows[i].short@, q) || contains_seq(
                lowercase(rows[i].summary@),
                q,
            ) || contains_seq(lowercase(rows[i].author@), q))) by {
            if exists|i: int|
                #![trigger rows[i]]
                0 <= i < n && (contains_seq(rows[i].short@, q) || contains_seq(
                    lowercase(rows[i].summary@),
                    q,
                ) || contains_seq(lowercase(rows[i].author@), q)) {
                let i = choose|i: int|
                    #![trigger rows[i]]
                    0 <= i < n && (contains_seq(rows[i].short@, q) || contains_seq(
                        lowercase(rows[i].summary@),
                        q,
                    ) || contains_seq(lowercase(rows[i].author@), q));
                lemma_matches_iff(rows[i], q);
            }
        }
    }
}

/// When some step reaches a matching row, there is a fewest such step.
proof fn lemma_least_step(rows: Seq<CommitRow>, q: Seq<char>, start: int, d: int)
    requires
        1 <= d <= rows.len(),
        row_matches(rows[step_row(rows.len() as int, start, d)], q),
    ensures
        exists|c: int|
            1 <= c <= rows.len() && row_matches(rows[step_row(rows.len() as int, start, c)], q)
                && forall|e: int|
                1 <= e < c ==> !row_matches(rows[step_row(rows.len() as int, start, e)], q),
    decreases d,
{
    let n = rows.len() as int;
    if exists|e: int| 1 <= e < d && row_matches(rows[step_row(n, start, e)], q) {
        let e = choose|e: int| 1 <= e < d && row_matches(rows[step_row(n, start, e)], q);
        lemma_least_step(rows, q, start, e);
    } else {
        assert(1 <= d <= n && row_matches(rows[step_row(n, start, d)], q) && forall|e: int|
            1 <= e < d ==> !row_matches(rows[step_row(n, start, e)], q));
    }
}

fn row_shows(r: &CommitRow, q: &Vec<char>) -> (b: bool)
    ensures
        b == row_matches(*r, q@),
{
    let summary = chars_of(to_lowercase(r.summary.as_str()).as_str());
    let author = chars_of(to_lowercase(r.author.as_str()).as_str());
    let short = chars_of(r.short.as_str());
    contains_chars(&summary, q) || contains_chars(&author, q) || contains_chars(&short, q)
}

/// The next row after the selection, going round, whose message, author
/// or short id contains the search text (case-insensitively for message
/// and author). The selection stays when the search text or the rows are
/// empty, or when no row matches.
pub fn find_next(rows: &[CommitRow], search: &str, selected: Option<usize>) -> (r: Option<usize>)
    requires
        search@.len() > 0 && rows@.len() > 0 ==> (match selected {
            Some(s) => s as int,
            None => 0,
        }) + rows@.len() <= usize::MAX,
    ensures
        r == search_result(rows@, search@, selected),
{
    if search.is_empty() || rows.len() == 0 {
        return selected;
    }
    let q = chars_of(to_lowercase(search).as_str());
    let n = rows.len();
    let start = match selected {
        Some(s) => s,
        None => 0,
    };
    let mut k: usize = 0;
    while k < n
        invariant
            0 <= k <= n,
            n == rows@.len(),
            n > 0,
            start + n <= usize::MAX,
            start as int == (match selected {
                Some(s) => s as int,
                None => 0,
            }),
            q@ == lowercase(search@),
            search@.len() > 0,
            forall|e: int|
                1 <= e < k + 1 ==> !row_matches(rows@[step_row(n as int, start as int, e)], q@),
        decreases n - k,
    {
        let d = k + 1;
        let i = (start + d) % n;
        assert(i as int == step_row(n as int, start as int, d as int));
        if row_shows(&rows[i], &q) {
            proof {
                assert(row_matches(rows@[step_row(n as int, start as int, d as int)], q@));
                let c = choose|c: int|
                    1 <= c <= n && row_matches(rows@[step_row(n as int, start as int, c)], q@)
                        && forall|e: int|
                        1 <= e < c ==> !row_matches(rows@[step_row(n as int, start as int, e)], q@);
                assert(c == d) by {
                    if c < d {
                        assert(!row_matches(rows@[step_row(n as int, start as int, c)], q@));
                    }
                    if d < c {
                        assert(!row_matches(rows@[step_row(n as int, start as int, d as int)], q@));
                    }
                }
                assert(next_match_steps(rows@, q@, start as int) == Some(d as int));
                let st: int = match selected {
                    Some(s) => s as int,
                    None => 0,
                };
                assert(st == start as int);
                assert((step_row(n as int, start as int, d as int) as usize) == i);
                assert(search_result(rows@, search@, selected) == Some(i));
            }
            return Some(i);
        }
        k = k + 1;
    }
    proof {
        assert(!exists|e: int|
            1 <= e <= n && row_matches(rows@[step_row(n as int, start as int, e)], q@));
    }
    selected
}

} // verus!
