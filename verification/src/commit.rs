//! Commit rows of the graph: decorations from refs, the lane layout of the
//! walk, the graph width and the commit time as text.
use vstd::prelude::*;
use crate::lanes::{
    busiest, edges_or_one, ids_of, lane_layout, lane_set, lane_shown, lanes_of,
    law_edge_lands_on_parent, law_layout_least_unused, law_layout_wf, law_layout_width,
    law_opened_lanes_shown, named_before,
    lemma_lane_set_len, lemma_layout_step, model_after, row_need, row_shows_lane, LaneState,
    Placement, RowLanes,
};
use crate::text::{chars_of, has_prefix, starts_with_at, string_of};
use chrono::FixedOffset;

verus! {

// ---------------------------------------------------------------------------
// Types
// ---------------------------------------------------------------------------

/// One commit as the revision walk yields it.
pub struct WalkedCommit {
    /// The full hexadecimal id.
    pub id: String,
    /// The ids of the parents, in order.
    pub parents: Vec<String>,
    /// The author's name, when it is valid text.
    pub author: Option<String>,
    /// The author's e-mail, when it is valid text.
    pub email: Option<String>,
    /// Commit time in seconds since the epoch.
    pub time: i64,
    /// The committer's offset from UTC in minutes.
    pub offset_min: i32,
    /// The first line of the message, when it is valid text.
    pub summary: Option<String>,
}

/// A reference with the commit it points to.
pub struct RefTarget {
    /// The full name, such as `refs/heads/main`.
    pub name: String,
    /// The id of the commit the reference peels to.
    pub target: String,
}

/// A reference shown as a pill on a row.
pub struct Decoration {
    /// The id of the commit it points to.
    pub target: String,
    /// The short name shown.
    pub label: String,
    /// A tag rather than a branch.
    pub is_tag: bool,
}

/// The references shown on rows, and the commit `HEAD` points to.
pub struct Decorations {
    /// The branch and tag pills, in reference order.
    pub entries: Vec<Decoration>,
    /// The commit `HEAD` points to, if any.
    pub head: Option<String>,
}

/// One row of the graph.
pub struct CommitRow {
    /// The full hexadecimal id (all zeros for the working-tree row).
    pub oid: String,
    /// The first seven characters of the id.
    pub short: String,
    /// The lane the commit is drawn in.
    pub lane: usize,
    /// Lanes of other branches passing by, in increasing order.
    pub passthrough: Vec<usize>,
    /// For each parent, the lane its edge goes to.
    pub parent_lanes: Vec<usize>,
    pub author: String,
    pub email: String,
    pub time: i64,
    pub offset_min: i32,
    pub summary: String,
    /// Branch names pointing at the commit, local and remote.
    pub branches: Vec<String>,
    /// Tag names pointing at the commit.
    pub tags: Vec<String>,
    /// `HEAD` points at the commit.
    pub is_head: bool,
    /// The row stands for uncommitted changes.
    pub is_working: bool,
}

// ---------------------------------------------------------------------------
// Specifications
// ---------------------------------------------------------------------------

pub open spec fn heads_prefix() -> Seq<char> {
    seq!['r', 'e', 'f', 's', '/', 'h', 'e', 'a', 'd', 's', '/']
}

pub open spec fn tags_prefix() -> Seq<char> {
    seq!['r', 'e', 'f', 's', '/', 't', 'a', 'g', 's', '/']
}

pub open spec fn remotes_prefix() -> Seq<char> {
    seq!['r', 'e', 'f', 's', '/', 'r', 'e', 'm', 'o', 't', 'e', 's', '/']
}

/// The pill a reference gets: local branches, tags and remote branches,
/// named without their prefix; other references get none.
pub open spec fn ref_label(name: Seq<char>) -> Option<(Seq<char>, bool)> {
    if has_prefix(name, heads_prefix()) {
        Some((name.skip(heads_prefix().len() as int), false))
    } else if has_prefix(name, tags_prefix()) {
        Some((name.skip(tags_prefix().len() as int), true))
    } else if has_prefix(name, remotes_prefix()) {
        Some((name.skip(remotes_prefix().len() as int), false))
    } else {
        None
    }
}

/// The pills of the references, in order: (target, label, is_tag).
pub open spec fn classified(refs: Seq<RefTarget>) -> Seq<(Seq<char>, Seq<char>, bool)>
    decreases refs.len(),
{
    if refs.len() == 0 {
        Seq::empty()
    } else {
        let rest = classified(refs.drop_last());
        match ref_label(refs.last().name@) {
            Some(lt) => rest.push((refs.last().target@, lt.0, lt.1)),
            None => rest,
        }
    }
}

pub open spec fn decoration_view(d: Decoration) -> (Seq<char>, Seq<char>, bool) {
    (d.target@, d.label@, d.is_tag)
}

/// The labels of the pills of kind `tag` that point at `id`, in order.
pub open spec fn labels_at(
    entries: Seq<(Seq<char>, Seq<char>, bool)>,
    id: Seq<char>,
    tag: bool,
) -> Seq<Seq<char>>
    decreases entries.len(),
{
    if entries.len() == 0 {
        Seq::empty()
    } else {
        let rest = labels_at(entries.drop_last(), id, tag);
        let e = entries.last();
        if e.0 == id && e.2 == tag {
            rest.push(e.1)
        } else {
            rest
        }
    }
}

pub open spec fn strings_view(v: Seq<String>) -> Seq<Seq<char>> {
    v.map_values(|s: String| s@)
}

/// The id and parent ids of each walked commit.
pub open spec fn walk_shape(commits: Seq<WalkedCommit>) -> Seq<(Seq<char>, Seq<Seq<char>>)> {
    commits.map_values(|c: WalkedCommit| (c.id@, ids_of(c.parents@)))
}

pub open spec fn text_or(o: Option<String>, default: Seq<char>) -> Seq<char> {
    match o {
        Some(s) => s@,
        None => default,
    }
}

/// The first seven characters of an id.
pub open spec fn short_id(id: Seq<char>) -> Seq<char> {
    if id.len() < 7 {
        id
    } else {
        id.take(7)
    }
}

/// The row's lanes are the layout's row.
pub open spec fn row_lanes_match(row: CommitRow, lanes: RowLanes) -> bool {
    (Placement { lane: row.lane, passthrough: row.passthrough, parent_lanes: row.parent_lanes }).matches(
        lanes,
    )
}

/// Everything a commit row shows besides its lanes.
pub open spec fn row_text_matches(
    row: CommitRow,
    c: WalkedCommit,
    entries: Seq<(Seq<char>, Seq<char>, bool)>,
    head: Option<String>,
) -> bool {
    &&& row.oid@ == c.id@
    &&& row.short@ == short_id(c.id@)
    &&& row.author@ == text_or(c.author, "unknown"@)
    &&& row.email@ == text_or(c.email, ""@)
    &&& row.time == c.time
    &&& row.offset_min == c.offset_min
    &&& row.summary@ == text_or(c.summary, ""@)
    &&& strings_view(row.branches@) == labels_at(entries, c.id@, false)
    &&& strings_view(row.tags@) == labels_at(entries, c.id@, true)
    &&& row.is_head == (head matches Some(h) && h@ == c.id@)
    &&& !row.is_working
}

// ---------------------------------------------------------------------------
// Decorations
// ---------------------------------------------------------------------------

/// A pill's label is the reference name without its prefix: putting the
/// prefix of its kind back gives the name again. Tags come only from
/// `refs/tags/`.
pub proof fn law_ref_label_restores_name(name: Seq<char>)
    ensures
        match ref_label(name) {
            Some(lt) => (lt.1 && name == tags_prefix() + lt.0) || (!lt.1 && (name == heads_prefix()
                + lt.0 || name == remotes_prefix() + lt.0)),
            None => !has_prefix(name, heads_prefix()) && !has_prefix(name, tags_prefix())
                && !has_prefix(name, remotes_prefix()),
        },
{
    if has_prefix(name, heads_prefix()) {
        assert(name =~= heads_prefix() + name.skip(heads_prefix().len() as int));
    } else if has_prefix(name, tags_prefix()) {
        assert(name =~= tags_prefix() + name.skip(tags_prefix().len() as int));
    } else if has_prefix(name, remotes_prefix()) {
        assert(name =~= remotes_prefix() + name.skip(remotes_prefix().len() as int));
    }
}

/// The pill of a reference: its name without `refs/heads/`, `refs/tags/`
/// or `refs/remotes/`, and whether it is a tag; `None` for other refs.
pub fn classify_ref(name: &String) -> (r: Option<(String, bool)>)
    ensures
        match r {
            Some(lt) => ref_label(name@) == Some((lt.0@, lt.1)),
            None => ref_label(name@) is None,
        },
{
    let v = chars_of(name.as_str());
    let n = v.len();
    let heads = ['r', 'e', 'f', 's', '/', 'h', 'e', 'a', 'd', 's', '/'];
    let tags = ['r', 'e', 'f', 's', '/', 't', 'a', 'g', 's', '/'];
    let remotes = ['r', 'e', 'f', 's', '/', 'r', 'e', 'm', 'o', 't', 'e', 's', '/'];
    assert(heads@ == heads_prefix());
    assert(tags@ == tags_prefix());
    assert(remotes@ == remotes_prefix());
    assert(v@.subrange(0, n as int) == v@);
    if starts_with_at(&v, 0, n, &heads) {
        let label = string_of(&v, 11, n);
        assert(v@.subrange(11, n as int) == v@.skip(11));
        Some((label, false))
    } else if starts_with_at(&v, 0, n, &tags) {
        let label = string_of(&v, 10, n);
        assert(v@.subrange(10, n as int) == v@.skip(10));
        Some((label, true))
    } else if starts_with_at(&v, 0, n, &remotes) {
        let label = string_of(&v, 13, n);
        assert(v@.subrange(13, n as int) == v@.skip(13));
        Some((label, false))
    } else {
        None
    }
}

/// The pills of all references, and `HEAD`'s commit.
pub fn collect_decorations(refs: &Vec<RefTarget>, head: Option<String>) -> (d: Decorations)
    ensures
        d.entries@.map_values(|e: Decoration| decoration_view(e)) == classified(refs@),
        d.head == head,
{
    let mut entries: Vec<Decoration> = Vec::new();
    let mut i: usize = 0;
    while i < refs.len()
        invariant
            0 <= i <= refs@.len(),
            entries@.map_values(|e: Decoration| decoration_view(e)) == classified(
                refs@.take(i as int),
            ),
        decreases refs@.len() - i,
    {
        proof {
            assert(refs@.take(i + 1).drop_last() == refs@.take(i as int));
            assert(refs@.take(i + 1).last() == refs@[i as int]);
        }
        let ghost before = entries@;
        match classify_ref(&refs[i].name) {
            Some(lt) => {
                let (label, is_tag) = lt;
                entries.push(Decoration { target: refs[i].target.clone(), label, is_tag });
                proof {
                    assert(entries@.map_values(|e: Decoration| decoration_view(e)) =~= before.map_values(
                        |e: Decoration| decoration_view(e),
                    ).push(decoration_view(entries@.last())));
                }
            },
            None => {},
        }
        i = i + 1;
    }
    assert(refs@.take(refs@.len() as int) == refs@);
    Decorations { entries, head }
}

/// The labels of the pills of kind `tag` that point at `id`.
fn labels_for(entries: &Vec<Decoration>, id: &String, tag: bool) -> (out: Vec<String>)
    ensures
        strings_view(out@) == labels_at(
            entries@.map_values(|e: Decoration| decoration_view(e)),
            id@,
            tag,
        ),
{
    let ghost all = entries@.map_values(|e: Decoration| decoration_view(e));
    let mut out: Vec<String> = Vec::new();
    let mut i: usize = 0;
    while i < entries.len()
        invariant
            0 <= i <= entries@.len(),
            all == entries@.map_values(|e: Decoration| decoration_view(e)),
            strings_view(out@) == labels_at(all.take(i as int), id@, tag),
        decreases entries@.len() - i,
    {
        proof {
            assert(all.take(i + 1).drop_last() == all.take(i as int));
            assert(all.take(i + 1).last() == decoration_view(entries@[i as int]));
        }
        let ghost before = out@;
        if entries[i].is_tag == tag && entries[i].target == *id {
            out.push(entries[i].label.clone());
            proof {
                assert(strings_view(out@) =~= strings_view(before).push(entries@[i as int].label@));
            }
        }
        i = i + 1;
    }
    assert(all.take(entries@.len() as int) == all);
    out
}

// ---------------------------------------------------------------------------
// Rows
// ---------------------------------------------------------------------------

fn text_or_default(o: &Option<String>, default: &str) -> (s: String)
    ensures
        s@ == text_or(*o, default@),
{
    match o {
        Some(t) => t.clone(),
        None => default.to_owned(),
    }
}

fn short_of(id: &String) -> (s: String)
    ensures
        s@ == short_id(id@),
{
    let v = chars_of(id.as_str());
    let n = if v.len() < 7 {
        v.len()
    } else {
        7
    };
    let s = string_of(&v, 0, n);
    assert(v@.len() < 7 ==> v@.subrange(0, n as int) == v@);
    assert(v@.len() >= 7 ==> v@.subrange(0, n as int) == v@.take(7));
    s
}

/// The rows of the graph for the walked commits, in walk order: each
/// commit's lanes are those of `lane_layout`, and its text, pills and
/// `HEAD` mark come from the commit and the decorations.
pub fn build_rows(commits: &Vec<WalkedCommit>, decorations: &Decorations) -> (rows: Vec<CommitRow>)
    ensures
        rows@.len() == commits@.len(),
        forall|j: int|
            0 <= j < rows@.len() ==> row_lanes_match(
                #[trigger] rows@[j],
                lane_layout(walk_shape(commits@)).1[j],
            ),
        forall|j: int|
            0 <= j < rows@.len() ==> row_text_matches(
                #[trigger] rows@[j],
                commits@[j],
                decorations.entries@.map_values(|e: Decoration| decoration_view(e)),
                decorations.head,
            ),
{
    let ghost shape = walk_shape(commits@);
    let ghost entries = decorations.entries@.map_values(|e: Decoration| decoration_view(e));
    let mut state = LaneState::new();
    let mut rows: Vec<CommitRow> = Vec::new();
    let mut i: usize = 0;
    proof {
        assert(shape.take(0) =~= Seq::<(Seq<char>, Seq<Seq<char>>)>::empty());
    }
    while i < commits.len()
        invariant
            0 <= i <= commits@.len(),
            shape == walk_shape(commits@),
            entries == decorations.entries@.map_values(|e: Decoration| decoration_view(e)),
            state.inv(),
            state.model() == model_after(shape, i as int),
            rows@.len() == i,
            forall|j: int|
                0 <= j < i ==> row_lanes_match(#[trigger] rows@[j], lane_layout(shape).1[j]),
            forall|j: int|
                0 <= j < i ==> row_text_matches(
                    #[trigger] rows@[j],
                    commits@[j],
                    entries,
                    decorations.head,
                ),
        decreases commits@.len() - i,
    {
        let c = &commits[i];
        proof {
            law_layout_wf(shape.take(i as int));
            lemma_layout_step(shape, i as int);
            assert(shape[i as int] == (c.id@, ids_of(c.parents@)));
        }
        let p = state.place(&c.id, &c.parents);
        let is_head = match &decorations.head {
            Some(h) => *h == c.id,
            None => false,
        };
        let row = CommitRow {
            oid: c.id.clone(),
            short: short_of(&c.id),
            lane: p.lane,
            passthrough: p.passthrough,
            parent_lanes: p.parent_lanes,
            author: text_or_default(&c.author, "unknown"),
            email: text_or_default(&c.email, ""),
            time: c.time,
            offset_min: c.offset_min,
            summary: text_or_default(&c.summary, ""),
            branches: labels_for(&decorations.entries, &c.id, false),
            tags: labels_for(&decorations.entries, &c.id, true),
            is_head,
            is_working: false,
        };
        rows.push(row);
        i = i + 1;
    }
    rows
}

// ---------------------------------------------------------------------------
// Width
// ---------------------------------------------------------------------------

/// The largest of `l + 1` over the lanes in `s`, and `m`.
pub open spec fn max_above(s: Seq<usize>, m: int) -> int
    decreases s.len(),
{
    if s.len() == 0 {
        m
    } else {
        let r = max_above(s.drop_last(), m);
        if s.last() + 1 > r {
            s.last() + 1
        } else {
            r
        }
    }
}

/// The number of lane columns the rows need: one past the largest lane any
/// row uses, and at least one.
pub open spec fn lanes_needed(rows: Seq<CommitRow>) -> int
    decreases rows.len(),
{
    if rows.len() == 0 {
        1
    } else {
        let r = rows.last();
        let m = lanes_needed(rows.drop_last());
        let m1 = if r.lane + 1 > m {
            r.lane + 1
        } else {
            m
        };
        max_above(r.parent_lanes@, max_above(r.passthrough@, m1))
    }
}

pub open spec fn lanes_below_max(rows: Seq<CommitRow>) -> bool {
    forall|j: int|
        0 <= j < rows.len() ==> {
            &&& #[trigger] rows[j].lane < usize::MAX
            &&& forall|i: int|
                0 <= i < rows[j].passthrough@.len() ==> #[trigger] rows[j].passthrough@[i]
                    < usize::MAX
            &&& forall|i: int|
                0 <= i < rows[j].parent_lanes@.len() ==> #[trigger] rows[j].parent_lanes@[i]
                    < usize::MAX
        }
}

proof fn lemma_max_above_bound(s: Seq<usize>, m: int)
    ensures
        max_above(s, m) >= m,
        max_above(s, m) <= usize::MAX + 1 || m > usize::MAX + 1,
        m <= usize::MAX ==> max_above(s, m) <= usize::MAX + 1,
    decreases s.len(),
{
    if s.len() > 0 {
        lemma_max_above_bound(s.drop_last(), m);
    }
}

proof fn lemma_max_above(s: Seq<usize>, m: int)
    ensures
        max_above(s, m) >= m,
        forall|i: int| 0 <= i < s.len() ==> s[i] + 1 <= max_above(s, m),
    decreases s.len(),
{
    if s.len() > 0 {
        lemma_max_above(s.drop_last(), m);
        assert forall|i: int| 0 <= i < s.len() - 1 implies s.drop_last()[i] == s[i] by {}
    }
}

proof fn lemma_max_above_least(s: Seq<usize>, m: int, b: int)
    requires
        b >= m,
        forall|i: int| 0 <= i < s.len() ==> s[i] + 1 <= b,
    ensures
        max_above(s, m) <= b,
    decreases s.len(),
{
    if s.len() > 0 {
        assert forall|i: int| 0 <= i < s.len() - 1 implies s.drop_last()[i] + 1 <= b by {
            assert(s.drop_last()[i] == s[i]);
        }
        lemma_max_above_least(s.drop_last(), m, b);
    }
}

/// A row uses lane `l`: its own, one passing by, or one its edges go to.
pub open spec fn row_uses(r: CommitRow, l: int) -> bool {
    r.lane == l || (exists|i: int| 0 <= i < r.passthrough@.len() && r.passthrough@[i] == l) || (
    exists|i: int| 0 <= i < r.parent_lanes@.len() && r.parent_lanes@[i] == l)
}

/// The graph has a column for every lane any row uses, and at least one.
pub proof fn law_lanes_needed_covers(rows: Seq<CommitRow>)
    ensures
        lanes_needed(rows) >= 1,
        forall|j: int, l: int|
            0 <= j < rows.len() && #[trigger] row_uses(rows[j], l) ==> l < lanes_needed(rows),
    decreases rows.len(),
{
    if rows.len() > 0 {
        let r = rows.last();
        let rest = rows.drop_last();
        law_lanes_needed_covers(rest);
        let m = lanes_needed(rest);
        let m1 = if r.lane + 1 > m {
            r.lane + 1
        } else {
            m
        };
        lemma_max_above(r.passthrough@, m1);
        lemma_max_above(r.parent_lanes@, max_above(r.passthrough@, m1));
        assert forall|j: int, l: int|
            0 <= j < rows.len() && #[trigger] row_uses(rows[j], l) implies l < lanes_needed(rows) by {
            if j < rows.len() - 1 {
                assert(rows[j] == rest[j]);
            }
        }
    }
}

/// The graph is no wider than it must be: any width of at least one column
/// that has a column for every lane the rows use is at least as wide.
pub proof fn law_lanes_needed_least(rows: Seq<CommitRow>, b: int)
    requires
        b >= 1,
        forall|j: int, l: int| 0 <= j < rows.len() && #[trigger] row_uses(rows[j], l) ==> l < b,
    ensures
        lanes_needed(rows) <= b,
    decreases rows.len(),
{
    if rows.len() > 0 {
        let r = rows.last();
        let rest = rows.drop_last();
        assert forall|j: int, l: int| 0 <= j < rest.len() && #[trigger] row_uses(rest[j], l) implies l < b by {
            assert(rows[j] == rest[j]);
        }
        law_lanes_needed_least(rest, b);
        let m = lanes_needed(rest);
        let m1 = if r.lane + 1 > m {
            r.lane + 1
        } else {
            m
        };
        assert(row_uses(rows[rows.len() - 1], r.lane as int));
        assert forall|i: int| 0 <= i < r.passthrough@.len() implies r.passthrough@[i] + 1 <= b by {
            assert(row_uses(rows[rows.len() - 1], r.passthrough@[i] as int));
        }
        assert forall|i: int| 0 <= i < r.parent_lanes@.len() implies r.parent_lanes@[i] + 1 <= b by {
            assert(row_uses(rows[rows.len() - 1], r.parent_lanes@[i] as int));
        }
        lemma_max_above_least(r.passthrough@, m1, b);
        lemma_max_above(r.passthrough@, m1);
        lemma_max_above_least(r.parent_lanes@, max_above(r.passthrough@, m1), b);
    }
}

proof fn lemma_row_uses_shown(r: CommitRow, lanes: RowLanes, l: int)
    requires
        row_lanes_match(r, lanes),
    ensures
        row_uses(r, l) <==> row_shows_lane(lanes, l),
{
    if exists|i: int| 0 <= i < r.passthrough@.len() && r.passthrough@[i] == l {
        assert(lane_set(r.passthrough@).contains(l));
    }
    if lanes.passthrough.contains(l) {
        assert(lane_set(r.passthrough@).contains(l));
    }
    if exists|i: int| 0 <= i < r.parent_lanes@.len() && r.parent_lanes@[i] == l {
        let i = choose|i: int| 0 <= i < r.parent_lanes@.len() && r.parent_lanes@[i] == l;
        assert(lanes_of(r.parent_lanes@)[i] == l);
    }
    if lanes.parent_lanes.contains(l) {
        let i = choose|i: int| 0 <= i < lanes.parent_lanes.len() && lanes.parent_lanes[i] == l;
        assert(lanes_of(r.parent_lanes@)[i] == r.parent_lanes@[i]);
    }
}

/// The graph of a walk is exactly as wide as the number of lanes the
/// layout opened (at least one column).
pub proof fn law_graph_width(commits: Seq<WalkedCommit>, rows: Seq<CommitRow>)
    requires
        rows.len() == commits.len(),
        forall|j: int|
            0 <= j < rows.len() ==> row_lanes_match(
                #[trigger] rows[j],
                lane_layout(walk_shape(commits)).1[j],
            ),
    ensures
        lanes_needed(rows) == (if lane_layout(walk_shape(commits)).0.opened == 0 {
            1
        } else {
            lane_layout(walk_shape(commits)).0.opened
        }),
{
    let shape = walk_shape(commits);
    let (m, lrows) = lane_layout(shape);
    law_layout_wf(shape);
    law_opened_lanes_shown(shape);
    law_lanes_needed_covers(rows);
    let b = if m.opened == 0 {
        1
    } else {
        m.opened
    };
    assert forall|j: int, l: int| 0 <= j < rows.len() && #[trigger] row_uses(rows[j], l) implies l < b by {
        lemma_row_uses_shown(rows[j], lrows[j], l);
        if lrows[j].parent_lanes.contains(l) {
            let i = choose|i: int| 0 <= i < lrows[j].parent_lanes.len() && lrows[j].parent_lanes[i] == l;
            assert(0 <= lrows[j].parent_lanes[i] < m.opened);
        }
    }
    law_lanes_needed_least(rows, b);
    if m.opened > 0 {
        let l = m.opened - 1;
        assert(lane_shown(lrows, l));
        let j = choose|j: int| 0 <= j < lrows.len() && #[trigger] row_shows_lane(lrows[j], l);
        lemma_row_uses_shown(rows[j], lrows[j], l);
        assert(row_uses(rows[j], l));
    }
}

/// The edge of row `j` to its `k`-th parent, drawn later in row `i` with no
/// row between drawing it, ends at the parent's lane and passes by every row
/// in between.
pub proof fn law_edge_passes_through(
    commits: Seq<WalkedCommit>,
    rows: Seq<CommitRow>,
    j: int,
    k: int,
    i: int,
)
    requires
        rows.len() == commits.len(),
        forall|t: int|
            0 <= t < rows.len() ==> row_lanes_match(
                #[trigger] rows[t],
                lane_layout(walk_shape(commits)).1[t],
            ),
        0 <= j < i < commits.len(),
        0 <= k < commits[j].parents@.len(),
        commits[i].id@ == commits[j].parents@[k]@,
        forall|u: int| j < u < i ==> #[trigger] commits[u].id@ != commits[j].parents@[k]@,
    ensures
        rows[j].parent_lanes@.len() == commits[j].parents@.len(),
        rows[i].lane == rows[j].parent_lanes@[k],
        forall|u: int|
            j < u < i ==> #[trigger] rows[u].passthrough@.contains(rows[j].parent_lanes@[k]),
{
    let shape = walk_shape(commits);
    let lrows = lane_layout(shape).1;
    law_layout_wf(shape);
    assert(shape[j] == (commits[j].id@, ids_of(commits[j].parents@)));
    assert(shape[i].0 == commits[i].id@);
    assert(shape[j].1[k] == commits[j].parents@[k]@);
    assert forall|u: int| j < u < i implies #[trigger] shape[u].0 != shape[j].1[k] by {
        assert(shape[u].0 == commits[u].id@);
    }
    law_edge_lands_on_parent(shape, j, k, i);
    assert(row_lanes_match(rows[j], lrows[j]));
    assert(row_lanes_match(rows[i], lrows[i]));
    assert(lanes_of(rows[j].parent_lanes@)[k] == rows[j].parent_lanes@[k]);
    let l = rows[j].parent_lanes@[k];
    assert forall|u: int| j < u < i implies #[trigger] rows[u].passthrough@.contains(l) by {
        assert(row_lanes_match(rows[u], lrows[u]));
        assert(lrows[u].passthrough.contains(l as int));
        assert(lane_set(rows[u].passthrough@).contains(l as int));
        let x = choose|x: int|
            0 <= x < rows[u].passthrough@.len() && rows[u].passthrough@[x] as int == l as int;
        assert(rows[u].passthrough@[x] == l);
    }
}

/// The columns a row needs by itself: the lanes passing by, plus its
/// parent edges (at least one).
pub open spec fn row_columns(r: CommitRow) -> int {
    r.passthrough@.len() + edges_or_one(r.parent_lanes@.len() as int)
}

/// The most columns any one row needs by itself (0 for no rows).
pub open spec fn busiest_row(rows: Seq<CommitRow>) -> int
    decreases rows.len(),
{
    if rows.len() == 0 {
        0
    } else {
        let b = busiest_row(rows.drop_last());
        let r = row_columns(rows.last());
        if r > b {
            r
        } else {
            b
        }
    }
}

proof fn lemma_busiest_rows(rows: Seq<CommitRow>, lrows: Seq<RowLanes>)
    requires
        rows.len() == lrows.len(),
        forall|t: int| 0 <= t < rows.len() ==> row_lanes_match(#[trigger] rows[t], lrows[t]),
    ensures
        busiest_row(rows) == busiest(lrows),
    decreases rows.len(),
{
    if rows.len() > 0 {
        let n = rows.len() - 1;
        assert forall|t: int| 0 <= t < n implies row_lanes_match(
            #[trigger] rows.drop_last()[t],
            lrows.drop_last()[t],
        ) by {
            assert(row_lanes_match(rows[t], lrows[t]));
        }
        lemma_busiest_rows(rows.drop_last(), lrows.drop_last());
        let r = rows[n];
        assert(row_lanes_match(r, lrows[n]));
        lemma_lane_set_len(r.passthrough@);
        assert(lanes_of(r.parent_lanes@).len() == r.parent_lanes@.len());
        assert(row_columns(r) == row_need(lrows[n]));
    }
}

/// No pyramid: the graph is never wider than its busiest row needs by
/// itself (the lanes passing by plus its parent edges, at least one),
/// however long the history.
pub proof fn law_width_of_busiest_row(commits: Seq<WalkedCommit>, rows: Seq<CommitRow>)
    requires
        rows.len() == commits.len(),
        forall|j: int|
            0 <= j < rows.len() ==> row_lanes_match(
                #[trigger] rows[j],
                lane_layout(walk_shape(commits)).1[j],
            ),
    ensures
        lanes_needed(rows) <= (if busiest_row(rows) < 1 {
            1
        } else {
            busiest_row(rows)
        }),
{
    let shape = walk_shape(commits);
    law_graph_width(commits, rows);
    law_layout_width(shape);
    law_layout_wf(shape);
    lemma_busiest_rows(rows, lane_layout(shape).1);
}

/// Some commit before the `i`-th names `p` as a parent.
pub open spec fn named_parent_before(commits: Seq<WalkedCommit>, i: int, p: Seq<char>) -> bool {
    exists|h: int| 0 <= h < i && #[trigger] ids_of(commits[h].parents@).contains(p)
}

proof fn lemma_lane_set_contains(s: Seq<usize>, n: usize)
    ensures
        lane_set(s).contains(n as int) == s.contains(n),
{
    if lane_set(s).contains(n as int) {
        let i = choose|i: int| 0 <= i < s.len() && s[i] as int == n as int;
        assert(s[i] == n);
    }
    if s.contains(n) {
        let i = choose|i: int| 0 <= i < s.len() && s[i] == n;
        assert(s[i] as int == n as int);
    }
}

proof fn lemma_lanes_of_take_contains(s: Seq<usize>, k: int, n: usize)
    requires
        0 <= k <= s.len(),
    ensures
        lanes_of(s).take(k).contains(n as int) == s.take(k).contains(n),
{
    if lanes_of(s).take(k).contains(n as int) {
        let i = choose|i: int| 0 <= i < lanes_of(s).take(k).len() && lanes_of(s).take(k)[i] == n as int;
        assert(s.take(k)[i] == n);
    }
    if s.take(k).contains(n) {
        let i = choose|i: int| 0 <= i < s.take(k).len() && s.take(k)[i] == n;
        assert(lanes_of(s).take(k)[i] == n as int);
    }
}

/// Lanes are recycled, the lowest first: a commit that no earlier commit
/// named as a parent is drawn in the lowest lane that no lane passing by
/// takes; a later parent that no earlier commit named, and that the commit
/// names for the first time, gets the lowest lane that neither a lane
/// passing by, the commit's own lane nor an earlier parent edge takes.
pub proof fn law_lowest_free_lane(commits: Seq<WalkedCommit>, rows: Seq<CommitRow>, i: int)
    requires
        rows.len() == commits.len(),
        forall|j: int|
            0 <= j < rows.len() ==> row_lanes_match(
                #[trigger] rows[j],
                lane_layout(walk_shape(commits)).1[j],
            ),
        0 <= i < rows.len(),
    ensures
        rows[i].parent_lanes@.len() == commits[i].parents@.len(),
        !named_parent_before(commits, i, commits[i].id@) ==> forall|n: usize|
            n < rows[i].lane ==> #[trigger] rows[i].passthrough@.contains(n),
        forall|k: int|
            1 <= k < commits[i].parents@.len() && !named_parent_before(
                commits,
                i,
                commits[i].parents@[k]@,
            ) && !ids_of(commits[i].parents@).take(k).contains(commits[i].parents@[k]@) ==> {
                &&& !rows[i].passthrough@.contains(#[trigger] rows[i].parent_lanes@[k])
                &&& rows[i].parent_lanes@[k] != rows[i].lane
                &&& !rows[i].parent_lanes@.take(k).contains(rows[i].parent_lanes@[k])
                &&& forall|n: usize|
                    n < rows[i].parent_lanes@[k] ==> rows[i].passthrough@.contains(n) || n
                        == rows[i].lane || rows[i].parent_lanes@.take(k).contains(n)
            },
{
    let shape = walk_shape(commits);
    let lrows = lane_layout(shape).1;
    law_layout_wf(shape);
    law_layout_least_unused(shape, i);
    let r = rows[i];
    let lr = lrows[i];
    assert(row_lanes_match(r, lr));
    assert(shape[i] == (commits[i].id@, ids_of(commits[i].parents@)));
    assert forall|p: Seq<char>| named_before(shape, i, p) == named_parent_before(commits, i, p) by {
        if named_before(shape, i, p) {
            let h = choose|h: int| 0 <= h < i && #[trigger] shape[h].1.contains(p);
            assert(shape[h] == (commits[h].id@, ids_of(commits[h].parents@)));
            assert(ids_of(commits[h].parents@).contains(p));
        }
        if named_parent_before(commits, i, p) {
            let h = choose|h: int| 0 <= h < i && #[trigger] ids_of(commits[h].parents@).contains(p);
            assert(shape[h] == (commits[h].id@, ids_of(commits[h].parents@)));
            assert(shape[h].1.contains(p));
        }
    }
    if !named_parent_before(commits, i, commits[i].id@) {
        assert forall|n: usize| n < r.lane implies #[trigger] r.passthrough@.contains(n) by {
            assert(lr.passthrough.contains(n as int));
            lemma_lane_set_contains(r.passthrough@, n);
        }
    }
    assert forall|k: int|
        1 <= k < commits[i].parents@.len() && !named_parent_before(commits, i, commits[i].parents@[k]@)
            && !ids_of(commits[i].parents@).take(k).contains(commits[i].parents@[k]@) implies {
            &&& !r.passthrough@.contains(#[trigger] r.parent_lanes@[k])
            &&& r.parent_lanes@[k] != r.lane
            &&& !r.parent_lanes@.take(k).contains(r.parent_lanes@[k])
            &&& forall|n: usize|
                n < r.parent_lanes@[k] ==> r.passthrough@.contains(n) || n == r.lane
                    || r.parent_lanes@.take(k).contains(n)
        } by {
        assert(shape[i].1[k] == commits[i].parents@[k]@);
        assert(ids_of(commits[i].parents@).take(k) == shape[i].1.take(k));
        let x = r.parent_lanes@[k];
        assert(lr.parent_lanes[k] == x as int);
        lemma_lane_set_contains(r.passthrough@, x);
        lemma_lanes_of_take_contains(r.parent_lanes@, k, x);
        assert forall|n: usize| n < x implies r.passthrough@.contains(n) || n == r.lane
            || r.parent_lanes@.take(k).contains(n) by {
            lemma_lane_set_contains(r.passthrough@, n);
            lemma_lanes_of_take_contains(r.parent_lanes@, k, n);
            assert(lr.passthrough.contains(n as int) || n as int == lr.lane
                || lr.parent_lanes.take(k).contains(n as int));
        }
    }
}

fn max_over(s: &Vec<usize>, m: usize) -> (r: usize)
    requires
        forall|i: int| 0 <= i < s@.len() ==> #[trigger] s@[i] < usize::MAX,
    ensures
        r as int == max_above(s@, m as int),
{
    let mut r = m;
    let mut i: usize = 0;
    while i < s.len()
        invariant
            0 <= i <= s@.len(),
            forall|k: int| 0 <= k < s@.len() ==> #[trigger] s@[k] < usize::MAX,
            r as int == max_above(s@.take(i as int), m as int),
        decreases s@.len() - i,
    {
        assert(s@.take(i + 1).drop_last() == s@.take(i as int));
        if s[i] + 1 > r {
            r = s[i] + 1;
        }
        i = i + 1;
    }
    assert(s@.take(s@.len() as int) == s@);
    r
}

/// The number of lane columns the rows need (at least one).
pub fn max_lanes(rows: &[CommitRow]) -> (m: usize)
    requires
        lanes_below_max(rows@),
    ensures
        m as int == lanes_needed(rows@),
{
    let mut m: usize = 1;
    let mut j: usize = 0;
    while j < rows.len()
        invariant
            0 <= j <= rows@.len(),
            lanes_below_max(rows@),
            m as int == lanes_needed(rows@.take(j as int)),
        decreases rows@.len() - j,
    {
        let r = &rows[j];
        assert(rows@.take(j + 1).drop_last() == rows@.take(j as int));
        assert(rows@.take(j + 1).last() == rows@[j as int]);
        assert(r.lane < usize::MAX);
        let m1 = if r.lane + 1 > m {
            r.lane + 1
        } else {
            m
        };
        let m2 = max_over(&r.passthrough, m1);
        let m3 = max_over(&r.parent_lanes, m2);
        m = m3;
        j = j + 1;
    }
    assert(rows@.take(rows@.len() as int) == rows@);
    m
}

// ---------------------------------------------------------------------------
// Time
// ---------------------------------------------------------------------------

/// What `chrono` prints for the instant `secs` seen at the fixed offset
/// `offset_secs` east of UTC with the format `fmt`, or `None` when the
/// instant is out of its range.
pub uninterp spec fn chrono_local_text(secs: i64, offset_secs: i32, fmt: Seq<char>) -> Option<
    Seq<char>,
>;

/// The format of commit times: year, month, day, hours and minutes.
pub open spec fn minute_format() -> Seq<char> {
    seq!['%', 'Y', '-', '%', 'm', '-', '%', 'd', ' ', '%', 'H', ':', '%', 'M']
}

/// Calls `chrono::FixedOffset::east_opt(offset_secs)` (in range here, so
/// `Some`), then `TimeZone::timestamp_opt(secs, 0)`; a `Single` result is
/// formatted with `DateTime::format(fmt)` and `to_string`, any other gives
/// `None`. The contract claims only that the result is the named
/// `chrono_local_text` of the arguments; that it is the calendar date and
/// time chrono computes is not stated. It accepts only `minute_format`, a
/// format chrono renders without error.
#[verifier::external_body]
fn chrono_format_local(secs: i64, offset_secs: i32, fmt: &str) -> (r: Option<String>)
    requires
        -86_400 < offset_secs < 86_400,
        fmt@ == minute_format(),
    ensures
        match r {
            Some(t) => chrono_local_text(secs, offset_secs, fmt@) == Some(t@),
            None => chrono_local_text(secs, offset_secs, fmt@) is None,
        },
{
    let tz = FixedOffset::east_opt(offset_secs).unwrap();
    match chrono::TimeZone::timestamp_opt(&tz, secs, 0) {
        chrono::LocalResult::Single(dt) => Some(dt.format(fmt).to_string()),
        _ => None,
    }
}

/// The offset used for a commit: its own when a valid zone offset (less
/// than a day either way), else UTC.
pub open spec fn effective_offset(offset_min: i32) -> int {
    let s = offset_min * 60;
    if -86_400 < s < 86_400 {
        s
    } else {
        0
    }
}

/// The time text shown: the formatted time, or `?` when there is none.
pub open spec fn time_text(formatted: Option<Seq<char>>) -> Seq<char> {
    match formatted {
        Some(t) => t,
        None => "?"@,
    }
}

/// The text shown for a formatted time: the time itself, or `?` when it
/// could not be formatted.
pub fn time_label(formatted: Option<String>) -> (s: String)
    ensures
        s@ == time_text(
            match formatted {
                Some(t) => Some(t@),
                None => None,
            },
        ),
{
    match formatted {
        Some(t) => t,
        None => "?".to_owned(),
    }
}

/// A commit time as `YYYY-MM-DD HH:MM` in the commit's own time zone.
pub fn format_time(secs: i64, offset_min: i32) -> (s: String)
    requires
        i32::MIN <= offset_min * 60 <= i32::MAX,
    ensures
        s@ == time_text(
            chrono_local_text(secs, effective_offset(offset_min) as i32, minute_format()),
        ),
{
    let secs_east: i32 = offset_min * 60;
    let offset: i32 = if -86_400 < secs_east && secs_east < 86_400 {
        secs_east
    } else {
        0
    };
    let fmt = "%Y-%m-%d %H:%M";
    proof {
        reveal_strlit("%Y-%m-%d %H:%M");
        assert(fmt@ =~= minute_format());
    }
    let formatted = chrono_format_local(secs, offset, fmt);
    time_label(formatted)
}

} // verus!
