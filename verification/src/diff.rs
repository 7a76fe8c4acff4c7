//! The side-by-side view of a unified diff: file and hunk headers across
//! both columns, removed lines on the left, added lines on the right, and
//! context lines on both, each with its line number.
use vstd::prelude::*;
use crate::text::{
    before_char, chars_of, decimal, decimal_string, has_prefix, is_whitespace, is_ws, lemma_first_ws_at,
    lines, next_line, parse_usize, parse_usize_spec, starts_with_at, string_of, trim_start_char,
    ws_tokens, first_ws,
};

verus! {

/// One row of the side-by-side view.
pub struct SideRow {
    /// A header shown across both columns.
    pub header: Option<String>,
    /// Line number, text, and whether the line was removed.
    pub left: Option<(String, String, bool)>,
    /// Line number, text, and whether the line was added.
    pub right: Option<(String, String, bool)>,
}

/// A row as text.
pub struct SideView {
    pub header: Option<Seq<char>>,
    pub left: Option<(Seq<char>, Seq<char>, bool)>,
    pub right: Option<(Seq<char>, Seq<char>, bool)>,
}

pub open spec fn cell_view(c: Option<(String, String, bool)>) -> Option<(Seq<char>, Seq<char>, bool)> {
    match c {
        Some(t) => Some((t.0@, t.1@, t.2)),
        None => None,
    }
}

impl View for SideRow {
    type V = SideView;

    open spec fn view(&self) -> SideView {
        SideView {
            header: match self.header {
                Some(h) => Some(h@),
                None => None,
            },
            left: cell_view(self.left),
            right: cell_view(self.right),
        }
    }
}

/// Where the parser is between two lines.
pub struct DiffState {
    pub in_hunk: bool,
    pub old_ln: int,
    pub new_ln: int,
}

pub open spec fn diff_git_prefix() -> Seq<char> {
    seq!['d', 'i', 'f', 'f', ' ', '-', '-', 'g', 'i', 't']
}

pub open spec fn old_file_prefix() -> Seq<char> {
    seq!['-', '-', '-', ' ']
}

pub open spec fn new_file_prefix() -> Seq<char> {
    seq!['+', '+', '+', ' ']
}

pub open spec fn hunk_prefix() -> Seq<char> {
    seq!['@', '@']
}

pub open spec fn is_file_header(line: Seq<char>) -> bool {
    has_prefix(line, diff_git_prefix()) || has_prefix(line, old_file_prefix()) || has_prefix(
        line,
        new_file_prefix(),
    )
}

/// The start line a hunk header gives in its `k`-th word, after dropping
/// the leading `sign`s and anything from the first comma; 0 when the word
/// is missing or not a number.
pub open spec fn hunk_start(line: Seq<char>, k: int, sign: char) -> int {
    let toks = ws_tokens(line);
    if toks.len() > k {
        match parse_usize_spec(before_char(trim_start_char(toks[k], sign), ',')) {
            Some(n) => n as int,
            None => 0,
        }
    } else {
        0
    }
}

/// The first character of a line, a space for an empty one.
pub open spec fn first_char(line: Seq<char>) -> char {
    if line.len() > 0 {
        line[0]
    } else {
        ' '
    }
}

pub open spec fn header_row(line: Seq<char>) -> SideView {
    SideView { header: Some(line), left: None, right: None }
}

/// Reading one line of the diff.
#[verifier::opaque]
pub open spec fn diff_step(st: DiffState, line: Seq<char>) -> (DiffState, Option<SideView>) {
    if is_file_header(line) {
        (DiffState { in_hunk: false, old_ln: st.old_ln, new_ln: st.new_ln }, Some(header_row(line)))
    } else if has_prefix(line, hunk_prefix()) {
        (
            DiffState {
                in_hunk: true,
                old_ln: hunk_start(line, 1, '-'),
                new_ln: hunk_start(line, 2, '+'),
            },
            Some(header_row(line)),
        )
    } else if !st.in_hunk {
        (st, None)
    } else if first_char(line) == ' ' {
        let o = st.old_ln + 1;
        let n = st.new_ln + 1;
        (
            DiffState { in_hunk: true, old_ln: o, new_ln: n },
            Some(
                SideView {
                    header: None,
                    left: Some((decimal(o as nat), line.drop_first(), false)),
                    right: Some((decimal(n as nat), line.drop_first(), false)),
                },
            ),
        )
    } else if first_char(line) == '-' {
        let o = st.old_ln + 1;
        (
            DiffState { in_hunk: true, old_ln: o, new_ln: st.new_ln },
            Some(
                SideView {
                    header: None,
                    left: Some((decimal(o as nat), line.drop_first(), true)),
                    right: None,
                },
            ),
        )
    } else if first_char(line) == '+' {
        let n = st.new_ln + 1;
        (
            DiffState { in_hunk: true, old_ln: st.old_ln, new_ln: n },
            Some(
                SideView {
                    header: None,
                    left: None,
                    right: Some((decimal(n as nat), line.drop_first(), true)),
                },
            ),
        )
    } else {
        (st, None)
    }
}

/// A line the parser reads without failing: inside a hunk, a line it
/// numbers is not empty and its numbers stay within `usize`.
#[verifier::opaque]
pub open spec fn diff_step_ok(st: DiffState, line: Seq<char>) -> bool {
    if is_file_header(line) || has_prefix(line, hunk_prefix()) || !st.in_hunk {
        true
    } else if line.len() == 0 {
        false
    } else if line[0] == ' ' {
        st.old_ln + 1 <= usize::MAX && st.new_ln + 1 <= usize::MAX
    } else if line[0] == '-' {
        st.old_ln + 1 <= usize::MAX
    } else if line[0] == '+' {
        st.new_ln + 1 <= usize::MAX
    } else {
        true
    }
}

pub open spec fn start_state() -> DiffState {
    DiffState { in_hunk: false, old_ln: 0, new_ln: 0 }
}

/// The state and rows after reading `ls` in order.
pub open spec fn diff_rows(ls: Seq<Seq<char>>) -> (DiffState, Seq<SideView>)
    decreases ls.len(),
{
    if ls.len() == 0 {
        (start_state(), Seq::empty())
    } else {
        let (st, rows) = diff_rows(ls.drop_last());
        let (st2, out) = diff_step(st, ls.last());
        match out {
            Some(r) => (st2, rows.push(r)),
            None => (st2, rows),
        }
    }
}

/// Every line of `ls` reads without failing.
pub open spec fn diff_lines_ok(ls: Seq<Seq<char>>) -> bool {
    forall|i: int| 0 <= i < ls.len() ==> diff_step_ok(diff_rows(ls.take(i)).0, #[trigger] ls[i])
}

/// The side-by-side rows of a diff text.
pub open spec fn side_by_side(diff: Seq<char>) -> Seq<SideView> {
    diff_rows(lines(diff)).1
}

/// The shape of a side-by-side row: a header across both columns; or a
/// context line, the same text on both sides, unmarked; or a removed line,
/// marked, on the left only; or an added line, marked, on the right only.
pub open spec fn row_shape_ok(r: SideView) -> bool {
    match (r.header, r.left, r.right) {
        (Some(_), None, None) => true,
        (None, Some((_, lt, lm)), Some((_, rt, rm))) => lt == rt && !lm && !rm,
        (None, Some((_, _, lm)), None) => lm,
        (None, None, Some((_, _, rm))) => rm,
        _ => false,
    }
}

/// Every row of the side-by-side view has one of the four shapes.
pub proof fn law_side_by_side_shapes(ls: Seq<Seq<char>>)
    ensures
        forall|i: int| 0 <= i < diff_rows(ls).1.len() ==> row_shape_ok(#[trigger] diff_rows(ls).1[i]),
    decreases ls.len(),
{
    if ls.len() > 0 {
        law_side_by_side_shapes(ls.drop_last());
        let (st, rows) = diff_rows(ls.drop_last());
        reveal(diff_step);
        let (st2, out) = diff_step(st, ls.last());
        if out is Some {
            assert(row_shape_ok(out->0));
            assert forall|i: int| 0 <= i < rows.push(out->0).len() implies row_shape_ok(
                #[trigger] rows.push(out->0)[i],
            ) by {
                if i < rows.len() {
                    assert(rows.push(out->0)[i] == rows[i]);
                }
            }
        }
    }
}

/// A line that starts a file or a hunk.
pub open spec fn is_header_line(line: Seq<char>) -> bool {
    is_file_header(line) || has_prefix(line, hunk_prefix())
}

/// The last header among the first `i` lines.
pub open spec fn last_header(ls: Seq<Seq<char>>, i: int) -> Option<int>
    decreases i,
{
    if i <= 0 {
        None
    } else if is_header_line(ls[i - 1]) {
        Some(i - 1)
    } else {
        last_header(ls, i - 1)
    }
}

/// The first `i` lines end inside a hunk: the last header before them is a
/// hunk header.
pub open spec fn inside_hunk(ls: Seq<Seq<char>>, i: int) -> bool {
    match last_header(ls, i) {
        Some(j) => has_prefix(ls[j], hunk_prefix()),
        None => false,
    }
}

/// How many of the lines `a..b` start with `c1` or `c2` (an empty line
/// counting as starting with a space).
pub open spec fn count_starting(ls: Seq<Seq<char>>, a: int, b: int, c1: char, c2: char) -> int
    decreases b - a,
{
    if b <= a {
        0
    } else {
        count_starting(ls, a, b - 1, c1, c2) + if first_char(ls[b - 1]) == c1 || first_char(
            ls[b - 1],
        ) == c2 {
            1int
        } else {
            0int
        }
    }
}

/// Where the parser stands after `i` lines: inside a hunk exactly when the
/// last header is a hunk header; there the old-side count is the hunk's
/// old start plus the context and removed lines read since, and the
/// new-side count its new start plus the context and added lines.
pub proof fn law_diff_counters(ls: Seq<Seq<char>>, i: int)
    requires
        0 <= i <= ls.len(),
    ensures
        diff_rows(ls.take(i)).0.in_hunk == inside_hunk(ls, i),
        inside_hunk(ls, i) ==> ({
            let j = last_header(ls, i)->0;
            &&& 0 <= j < i
            &&& diff_rows(ls.take(i)).0.old_ln == hunk_start(ls[j], 1, '-') + count_starting(
                ls,
                j + 1,
                i,
                ' ',
                '-',
            )
            &&& diff_rows(ls.take(i)).0.new_ln == hunk_start(ls[j], 2, '+') + count_starting(
                ls,
                j + 1,
                i,
                ' ',
                '+',
            )
        }),
    decreases i,
{
    if i == 0 {
        assert(ls.take(0) =~= Seq::<Seq<char>>::empty());
    } else {
        law_diff_counters(ls, i - 1);
        let line = ls[i - 1];
        assert(ls.take(i).drop_last() == ls.take(i - 1));
        assert(ls.take(i).last() == line);
        let st = diff_rows(ls.take(i - 1)).0;
        reveal(diff_step);
        if is_header_line(line) {
            assert(last_header(ls, i) == Some(i - 1));
            assert(count_starting(ls, i, i, ' ', '-') == 0);
            assert(count_starting(ls, i, i, ' ', '+') == 0);
            if has_prefix(line, hunk_prefix()) {
                assert(line.take(2)[0] == '@');
                assert(!has_prefix(line, diff_git_prefix())) by {
                    if has_prefix(line, diff_git_prefix()) {
                        assert(line.take(10)[0] == 'd');
                    }
                }
                assert(!has_prefix(line, old_file_prefix())) by {
                    if has_prefix(line, old_file_prefix()) {
                        assert(line.take(4)[0] == '-');
                    }
                }
                assert(!has_prefix(line, new_file_prefix())) by {
                    if has_prefix(line, new_file_prefix()) {
                        assert(line.take(4)[0] == '+');
                    }
                }
            }
        } else {
            assert(last_header(ls, i) == last_header(ls, i - 1));
            if inside_hunk(ls, i - 1) {
                let j = last_header(ls, i - 1)->0;
                assert(count_starting(ls, j + 1, i, ' ', '-') == count_starting(ls, j + 1, i - 1, ' ', '-')
                    + if first_char(line) == ' ' || first_char(line) == '-' { 1int } else { 0int });
                assert(count_starting(ls, j + 1, i, ' ', '+') == count_starting(ls, j + 1, i - 1, ' ', '+')
                    + if first_char(line) == ' ' || first_char(line) == '+' { 1int } else { 0int });
            }
        }
    }
}

/// A line gives a row exactly when it is a header, or lies inside a hunk
/// and starts with a space, `-` or `+`.
pub proof fn law_diff_line_gives_row(ls: Seq<Seq<char>>, i: int)
    requires
        0 <= i < ls.len(),
    ensures
        diff_step(diff_rows(ls.take(i)).0, ls[i]).1 is Some <==> (is_header_line(ls[i]) || (
        inside_hunk(ls, i) && (first_char(ls[i]) == ' ' || first_char(ls[i]) == '-' || first_char(
            ls[i],
        ) == '+'))),
        is_header_line(ls[i]) ==> diff_step(diff_rows(ls.take(i)).0, ls[i]).1 == Some(
            header_row(ls[i]),
        ),
        !is_header_line(ls[i]) && inside_hunk(ls, i) ==> ({
            let j = last_header(ls, i)->0;
            let r = diff_step(diff_rows(ls.take(i)).0, ls[i]).1->0;
            let old_n = hunk_start(ls[j], 1, '-') + count_starting(ls, j + 1, i + 1, ' ', '-');
            let new_n = hunk_start(ls[j], 2, '+') + count_starting(ls, j + 1, i + 1, ' ', '+');
            &&& first_char(ls[i]) == ' ' ==> r == SideView {
                header: None,
                left: Some((decimal(old_n as nat), ls[i].drop_first(), false)),
                right: Some((decimal(new_n as nat), ls[i].drop_first(), false)),
            }
            &&& first_char(ls[i]) == '-' ==> r == SideView {
                header: None,
                left: Some((decimal(old_n as nat), ls[i].drop_first(), true)),
                right: None,
            }
            &&& first_char(ls[i]) == '+' ==> r == SideView {
                header: None,
                left: None,
                right: Some((decimal(new_n as nat), ls[i].drop_first(), true)),
            }
        }),
{
    law_diff_counters(ls, i);
    reveal(diff_step);
    if !is_header_line(ls[i]) && inside_hunk(ls, i) {
        let j = last_header(ls, i)->0;
        assert(count_starting(ls, j + 1, i + 1, ' ', '-') == count_starting(ls, j + 1, i, ' ', '-')
            + if first_char(ls[i]) == ' ' || first_char(ls[i]) == '-' { 1int } else { 0int });
        assert(count_starting(ls, j + 1, i + 1, ' ', '+') == count_starting(ls, j + 1, i, ' ', '+')
            + if first_char(ls[i]) == ' ' || first_char(ls[i]) == '+' { 1int } else { 0int });
    }
}

// ---------------------------------------------------------------------------
// Lemmas
// ---------------------------------------------------------------------------

proof fn lemma_before_char_at(s: Seq<char>, c: char, k: int)
    requires
        0 <= k <= s.len(),
        k < s.len() ==> s[k] == c,
        forall|i: int| 0 <= i < k ==> s[i] != c,
    ensures
        before_char(s, c) == s.take(k),
    decreases s.len(),
{
    if s.len() == 0 {
        assert(s.take(k) == s);
    } else if k == 0 {
        assert(s.take(0) =~= Seq::<char>::empty());
    } else {
        assert forall|i: int| 0 <= i < k - 1 implies s.drop_first()[i] != c by {
            assert(s.drop_first()[i] == s[i + 1]);
        }
        lemma_before_char_at(s.drop_first(), c, k - 1);
        assert(seq![s[0]] + s.drop_first().take(k - 1) =~= s.take(k));
    }
}

proof fn lemma_ws_tokens_skip(s: Seq<char>)
    requires
        s.len() > 0,
        is_ws(s[0]),
    ensures
        ws_tokens(s) == ws_tokens(s.drop_first()),
{
}

proof fn lemma_ws_tokens_token(s: Seq<char>, k: int)
    requires
        1 <= k <= s.len(),
        !is_ws(s[0]),
        k < s.len() ==> is_ws(s[k]),
        forall|i: int| 0 < i < k ==> !is_ws(s[i]),
    ensures
        ws_tokens(s) == seq![s.take(k)] + ws_tokens(s.skip(k)),
{
    let t = s.drop_first();
    assert forall|i: int| 0 <= i < k - 1 implies !is_ws(t[i]) by {
        assert(t[i] == s[i + 1]);
    }
    if k - 1 < t.len() {
        assert(t[k - 1] == s[k]);
    }
    lemma_first_ws_at(t, k - 1);
}

// ---------------------------------------------------------------------------
// Executable parser
// ---------------------------------------------------------------------------

/// The `n`-th whitespace-separated word of `v[from..to]`, as a range.
fn nth_token(v: &Vec<char>, from: usize, to: usize, n: usize) -> (r: Option<(usize, usize)>)
    requires
        from <= to <= v@.len(),
    ensures
        match r {
            Some(ab) => {
                &&& from <= ab.0 <= ab.1 <= to
                &&& n < ws_tokens(v@.subrange(from as int, to as int)).len()
                &&& v@.subrange(ab.0 as int, ab.1 as int) == ws_tokens(
                    v@.subrange(from as int, to as int),
                )[n as int]
            },
            None => n >= ws_tokens(v@.subrange(from as int, to as int)).len(),
        },
{
    let ghost line = v@.subrange(from as int, to as int);
    let ghost mut found: Seq<Seq<char>> = Seq::empty();
    let mut count: usize = 0;
    let mut p = from;
    while p < to
        invariant
            from <= p <= to <= v@.len(),
            line == v@.subrange(from as int, to as int),
            count == found.len(),
            count <= n,
            ws_tokens(line) == found + ws_tokens(v@.subrange(p as int, to as int)),
        decreases to - p,
    {
        let ghost rest = v@.subrange(p as int, to as int);
        if is_whitespace(v[p]) {
            proof {
                assert(rest[0] == v@[p as int]);
                lemma_ws_tokens_skip(rest);
                assert(rest.drop_first() == v@.subrange(p + 1, to as int));
            }
            p = p + 1;
        } else {
            let mut q = p + 1;
            while q < to && !is_whitespace(v[q])
                invariant
                    p < q <= to <= v@.len(),
                    forall|i: int| p < i < q ==> !is_ws(v@[i]),
                decreases to - q,
            {
                q = q + 1;
            }
            proof {
                let k = q - p;
                assert(rest[0] == v@[p as int]);
                assert forall|i: int| 0 < i < k implies !is_ws(rest[i]) by {
                    assert(rest[i] == v@[p + i]);
                }
                if k < rest.len() {
                    assert(rest[k as int] == v@[q as int]);
                }
                lemma_ws_tokens_token(rest, k as int);
                assert(rest.take(k as int) == v@.subrange(p as int, q as int));
                assert(rest.skip(k as int) == v@.subrange(q as int, to as int));
            }
            if count == n {
                proof {
                    assert((found + (seq![v@.subrange(p as int, q as int)] + ws_tokens(
                        v@.subrange(q as int, to as int),
                    )))[n as int] == v@.subrange(p as int, q as int));
                }
                return Some((p, q));
            }
            proof {
                assert(found + (seq![v@.subrange(p as int, q as int)] + ws_tokens(
                    v@.subrange(q as int, to as int),
                )) == found.push(v@.subrange(p as int, q as int)) + ws_tokens(
                    v@.subrange(q as int, to as int),
                ));
                found = found.push(v@.subrange(p as int, q as int));
            }
            count = count + 1;
            p = q;
        }
    }
    proof {
        assert(v@.subrange(p as int, to as int).len() == 0);
        assert(found + Seq::<Seq<char>>::empty() == found);
    }
    None
}

/// The start line number of a hunk header word: `v[a..b]` without its
/// leading `sign`s, up to the first comma, parsed; 0 if not a number.
fn hunk_number(v: &Vec<char>, a: usize, b: usize, sign: char) -> (n: usize)
    requires
        a <= b <= v@.len(),
    ensures
        n as int == (match parse_usize_spec(
            before_char(trim_start_char(v@.subrange(a as int, b as int), sign), ','),
        ) {
            Some(x) => x as int,
            None => 0,
        }),
{
    let mut s = a;
    while s < b && v[s] == sign
        invariant
            a <= s <= b <= v@.len(),
            trim_start_char(v@.subrange(a as int, b as int), sign) == trim_start_char(
                v@.subrange(s as int, b as int),
                sign,
            ),
        decreases b - s,
    {
        assert(v@.subrange(s as int, b as int).drop_first() == v@.subrange(s + 1, b as int));
        s = s + 1;
    }
    assert(trim_start_char(v@.subrange(s as int, b as int), sign) == v@.subrange(s as int, b as int));
    let mut c = s;
    while c < b && v[c] != ','
        invariant
            s <= c <= b <= v@.len(),
            forall|i: int| s <= i < c ==> v@[i] != ',',
        decreases b - c,
    {
        c = c + 1;
    }
    proof {
        let t = v@.subrange(s as int, b as int);
        let k = c - s;
        assert forall|i: int| 0 <= i < k implies t[i] != ',' by {
            assert(t[i] == v@[s + i]);
        }
        if k < t.len() {
            assert(t[k as int] == v@[c as int]);
        }
        lemma_before_char_at(t, ',', k as int);
        assert(t.take(k as int) == v@.subrange(s as int, c as int));
    }
    match parse_usize(v, s, c) {
        Some(x) => x,
        None => 0,
    }
}

pub open spec fn state_of(in_hunk: bool, old_ln: usize, new_ln: usize) -> DiffState {
    DiffState { in_hunk, old_ln: old_ln as int, new_ln: new_ln as int }
}

pub open spec fn row_opt_view(r: Option<SideRow>) -> Option<SideView> {
    match r {
        Some(x) => Some(x@),
        None => None,
    }
}

/// Reads the line `v[pos..end]` in the given state: the next state and the
/// row it shows, or `None` when the line cannot be read.
fn read_diff_line(v: &Vec<char>, pos: usize, end: usize, in_hunk: bool, old_ln: usize, new_ln: usize) -> (r:
    Option<(bool, usize, usize, Option<SideRow>)>)
    requires
        pos <= end <= v@.len(),
    ensures
        ({
            let line = v@.subrange(pos as int, end as int);
            let st = state_of(in_hunk, old_ln, new_ln);
            match r {
                Some(t) => {
                    &&& diff_step_ok(st, line)
                    &&& diff_step(st, line).0 == state_of(t.0, t.1, t.2)
                    &&& diff_step(st, line).1 == row_opt_view(t.3)
                },
                None => !diff_step_ok(st, line),
            }
        }),
{
    reveal(diff_step);
    reveal(diff_step_ok);
    let ghost line = v@.subrange(pos as int, end as int);
    let dgit = ['d', 'i', 'f', 'f', ' ', '-', '-', 'g', 'i', 't'];
    let oldf = ['-', '-', '-', ' '];
    let newf = ['+', '+', '+', ' '];
    let hunk = ['@', '@'];
    assert(dgit@ == diff_git_prefix());
    assert(oldf@ == old_file_prefix());
    assert(newf@ == new_file_prefix());
    assert(hunk@ == hunk_prefix());
    if starts_with_at(v, pos, end, &dgit) || starts_with_at(v, pos, end, &oldf) || starts_with_at(
        v,
        pos,
        end,
        &newf,
    ) {
        let row = SideRow { header: Some(string_of(v, pos, end)), left: None, right: None };
        return Some((false, old_ln, new_ln, Some(row)));
    }
    if starts_with_at(v, pos, end, &hunk) {
        let old_start = match nth_token(v, pos, end, 1) {
            Some((a, b)) => hunk_number(v, a, b, '-'),
            None => 0,
        };
        let new_start = match nth_token(v, pos, end, 2) {
            Some((a, b)) => hunk_number(v, a, b, '+'),
            None => 0,
        };
        let row = SideRow { header: Some(string_of(v, pos, end)), left: None, right: None };
        return Some((true, old_start, new_start, Some(row)));
    }
    if !in_hunk {
        return Some((in_hunk, old_ln, new_ln, None));
    }
    if end == pos {
        return None;
    }
    let ch = v[pos];
    assert(line[0] == ch);
    if !(ch == ' ' || ch == '-' || ch == '+') {
        return Some((in_hunk, old_ln, new_ln, None));
    }
    let grows_old = ch != '+';
    let grows_new = ch != '-';
    if (grows_old && old_ln == usize::MAX) || (grows_new && new_ln == usize::MAX) {
        return None;
    }
    let o = if grows_old {
        old_ln + 1
    } else {
        old_ln
    };
    let n = if grows_new {
        new_ln + 1
    } else {
        new_ln
    };
    assert(v@.subrange(pos + 1, end as int) == line.drop_first());
    let left = if grows_old {
        Some((decimal_string(o), string_of(v, pos + 1, end), ch == '-'))
    } else {
        None
    };
    let right = if grows_new {
        Some((decimal_string(n), string_of(v, pos + 1, end), ch == '+'))
    } else {
        None
    };
    Some((true, o, n, Some(SideRow { header: None, left, right })))
}

/// The side-by-side rows of a diff, or `None` when reading it would fail:
/// an empty line inside a hunk, or a line number past `usize::MAX`.
pub fn try_parse_side_by_side(diff: &str) -> (r: Option<Vec<SideRow>>)
    ensures
        match r {
            Some(rows) => diff_lines_ok(lines(diff@)) && rows@.map_values(|x: SideRow| x@)
                == side_by_side(diff@),
            None => !diff_lines_ok(lines(diff@)),
        },
{
    let v = chars_of(diff);
    let ghost all = lines(v@);
    let ghost mut done: Seq<Seq<char>> = Seq::empty();
    let mut rows: Vec<SideRow> = Vec::new();
    let mut in_hunk = false;
    let mut old_ln: usize = 0;
    let mut new_ln: usize = 0;
    let mut pos: usize = 0;
    proof {
        assert(v@.skip(0) == v@);
        assert(Seq::<Seq<char>>::empty() + lines(v@) == lines(v@));
    }
    while pos < v.len()
        invariant
            0 <= pos <= v@.len(),
            all == lines(v@),
            v@ == diff@,
            all == done + lines(v@.skip(pos as int)),
            diff_rows(done).0 == state_of(in_hunk, old_ln, new_ln),
            rows@.map_values(|x: SideRow| x@) == diff_rows(done).1,
            diff_lines_ok(done),
        decreases v@.len() - pos,
    {
        let (end, next) = next_line(&v, pos);
        let ghost line = v@.subrange(pos as int, end as int);
        let ghost st = state_of(in_hunk, old_ln, new_ln);
        let ghost before = rows@.map_values(|x: SideRow| x@);
        let ghost longer = done.push(line);
        proof {
            assert(longer.drop_last() == done);
            assert(longer.last() == line);
            assert(all == longer + lines(v@.skip(next as int)));
            assert(longer.take(done.len() as int) == done);
        }
        match read_diff_line(&v, pos, end, in_hunk, old_ln, new_ln) {
            None => {
                proof {
                    let i = done.len() as int;
                    assert(all.take(i) == done);
                    assert(all[i] == line);
                }
                return None;
            },
            Some((h, o, n, out)) => {
                in_hunk = h;
                old_ln = o;
                new_ln = n;
                match out {
                    Some(row) => {
                        rows.push(row);
                        proof {
                            assert(rows@.map_values(|x: SideRow| x@) =~= before.push(row@));
                        }
                    },
                    None => {},
                }
            },
        }
        proof {
            assert(diff_lines_ok(longer)) by {
                assert forall|i: int| 0 <= i < longer.len() implies diff_step_ok(
                    diff_rows(longer.take(i)).0,
                    #[trigger] longer[i],
                ) by {
                    if i < done.len() {
                        assert(longer.take(i) == done.take(i));
                        assert(longer[i] == done[i]);
                    }
                }
            }
            done = longer;
        }
        pos = next;
    }
    proof {
        assert(v@.skip(pos as int).len() == 0);
        assert(lines(v@.skip(pos as int)) == Seq::<Seq<char>>::empty());
        assert(done + Seq::<Seq<char>>::empty() == done);
    }
    Some(rows)
}

/// The side-by-side rows of a diff, for a diff that reads without failing.
pub fn parse_side_by_side(diff: &str) -> (rows: Vec<SideRow>)
    requires
        diff_lines_ok(lines(diff@)),
    ensures
        rows@.map_values(|x: SideRow| x@) == side_by_side(diff@),
{
    match try_parse_side_by_side(diff) {
        Some(rows) => rows,
        None => Vec::new(),
    }
}

// ---------------------------------------------------------------------------
// The plain text view
// ---------------------------------------------------------------------------

/// How a line of the plain diff view is coloured.
pub enum LineStyle {
    /// An empty line.
    Blank,
    /// A line starting with `+`.
    Added,
    /// A line starting with `-`.
    Removed,
    /// A line starting with `@`.
    Hunk,
    /// Any other line.
    Context,
}

pub open spec fn line_style_of(line: Seq<char>) -> LineStyle {
    if line.len() == 0 {
        LineStyle::Blank
    } else if line[0] == '+' {
        LineStyle::Added
    } else if line[0] == '-' {
        LineStyle::Removed
    } else if line[0] == '@' {
        LineStyle::Hunk
    } else {
        LineStyle::Context
    }
}

/// The lines of a diff text, each with its colouring.
pub fn styled_lines(text: &str) -> (out: Vec<(String, LineStyle)>)
    ensures
        out@.len() == lines(text@).len(),
        forall|i: int|
            #![trigger out@[i]]
            0 <= i < out@.len() ==> out@[i].0@ == lines(text@)[i] && out@[i].1 == line_style_of(
                lines(text@)[i],
            ),
{
    let v = chars_of(text);
    let ghost all = lines(v@);
    let ghost mut done: Seq<Seq<char>> = Seq::empty();
    let mut out: Vec<(String, LineStyle)> = Vec::new();
    let mut pos: usize = 0;
    proof {
        assert(v@.skip(0) == v@);
        assert(Seq::<Seq<char>>::empty() + lines(v@) == lines(v@));
    }
    while pos < v.len()
        invariant
            0 <= pos <= v@.len(),
            v@ == text@,
            all == lines(v@),
            all == done + lines(v@.skip(pos as int)),
            out@.len() == done.len(),
            forall|i: int|
                #![trigger out@[i]]
                0 <= i < out@.len() ==> out@[i].0@ == done[i] && out@[i].1 == line_style_of(done[i]),
        decreases v@.len() - pos,
    {
        let (end, next) = next_line(&v, pos);
        let ghost line = v@.subrange(pos as int, end as int);
        proof {
            assert(all == done.push(line) + lines(v@.skip(next as int)));
        }
        let style = if end == pos {
            LineStyle::Blank
        } else if v[pos] == '+' {
            LineStyle::Added
        } else if v[pos] == '-' {
            LineStyle::Removed
        } else if v[pos] == '@' {
            LineStyle::Hunk
        } else {
            LineStyle::Context
        };
        proof {
            if end > pos {
                assert(line[0] == v@[pos as int]);
            }
        }
        let ghost before = out@;
        let text_line = string_of(&v, pos, end);
        let ghost tl = text_line@;
        out.push((text_line, style));
        proof {
            assert(style == line_style_of(line));
            assert(out@[before.len() as int].0@ == tl);
            assert(out@[before.len() as int].1 == style);
            assert forall|i: int|
                #![trigger out@[i]]
                0 <= i < out@.len() implies out@[i].0@ == done.push(line)[i] && out@[i].1
                == line_style_of(done.push(line)[i]) by {
                if i < before.len() {
                    assert(out@[i] == before[i]);
                    assert(before[i].0@ == done[i] && before[i].1 == line_style_of(done[i]));
                    assert(done.push(line)[i] == done[i]);
                } else {
                    assert(done.push(line)[i] == line);
                }
            }
            done = done.push(line);
        }
        pos = next;
    }
    proof {
        assert(v@.skip(pos as int).len() == 0);
        assert(lines(v@.skip(pos as int)) == Seq::<Seq<char>>::empty());
        assert(done + Seq::<Seq<char>>::empty() == done);
        assert(done == lines(text@));
    }
    out
}

} // verus!
