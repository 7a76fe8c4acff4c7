//! The lane layout of the commit graph: which column each commit is drawn
//! in, which branch lines pass by it, and where its parent edges go.
//!
//! Commits arrive in walk order. A commit named as a parent by a drawn
//! commit, but not drawn yet, keeps a lane reserved. A lane that nothing
//! reserves any more is freed and reused, the lowest first, before a new
//! lane is opened.
use vstd::prelude::*;

verus! {

/// What the layout knows between two commits.
pub struct LaneModel {
    /// The lane kept for each commit that is awaited: named as a parent by
    /// a drawn commit and not drawn yet.
    pub reserved: Map<Seq<char>, int>,
    /// Lanes that were opened and are free for reuse.
    pub free: Set<int>,
    /// How many lanes were opened so far; lanes are `0..opened`.
    pub opened: int,
}

/// The lanes of one drawn row.
pub struct RowLanes {
    /// The lane the commit is drawn in.
    pub lane: int,
    /// The lanes of other branches that pass by this row.
    pub passthrough: Set<int>,
    /// For each parent, in order, the lane its edge goes to.
    pub parent_lanes: Seq<int>,
}

pub open spec fn empty_model() -> LaneModel {
    LaneModel { reserved: Map::empty(), free: Set::empty(), opened: 0 }
}

/// Some awaited commit keeps lane `l`.
#[verifier::opaque]
pub open spec fn lane_in_use(r: Map<Seq<char>, int>, l: int) -> bool {
    exists|k: Seq<char>| #[trigger] r.contains_key(k) && r[k] == l
}

/// The lanes that awaited commits keep.
pub open spec fn used_lanes(r: Map<Seq<char>, int>) -> Set<int> {
    Set::new(|l: int| lane_in_use(r, l))
}

/// The smallest element of `s`.
pub open spec fn least(s: Set<int>) -> int {
    choose|x: int| s.contains(x) && forall|y: int| s.contains(y) ==> x <= y
}

pub open spec fn has_free_lane(m: LaneModel) -> bool {
    exists|l: int| m.free.contains(l)
}

/// A lane for a commit or parent that has none: the lowest free lane, or
/// else a newly opened one.
pub open spec fn open_lane(m: LaneModel) -> (int, LaneModel) {
    if has_free_lane(m) {
        let l = least(m.free);
        (l, LaneModel { reserved: m.reserved, free: m.free.remove(l), opened: m.opened })
    } else {
        (m.opened, LaneModel { reserved: m.reserved, free: m.free, opened: m.opened + 1 })
    }
}

/// The lane of the commit `id`: the one kept for it, or else a new one.
pub open spec fn lane_for_commit(m: LaneModel, id: Seq<char>) -> (int, LaneModel) {
    if m.reserved.contains_key(id) {
        (m.reserved[id], LaneModel { reserved: m.reserved.remove(id), free: m.free, opened: m.opened })
    } else {
        open_lane(m)
    }
}

/// Reserving lanes for the parents of a commit drawn in `lane`: an awaited
/// parent keeps its lane, the first parent otherwise continues the commit's
/// lane, and any other parent gets a lane of its own.
pub open spec fn assign_parents(m: LaneModel, lane: int, parents: Seq<Seq<char>>) -> (
    LaneModel,
    Seq<int>,
)
    decreases parents.len(),
{
    if parents.len() == 0 {
        (m, Seq::empty())
    } else {
        let (m1, ls) = assign_parents(m, lane, parents.drop_last());
        let p = parents.last();
        if m1.reserved.contains_key(p) {
            (m1, ls.push(m1.reserved[p]))
        } else {
            let l = if parents.len() == 1 {
                lane
            } else {
                open_lane(m1).0
            };
            let m2 = if parents.len() == 1 {
                m1
            } else {
                open_lane(m1).1
            };
            (
                LaneModel { reserved: m2.reserved.insert(p, l), free: m2.free, opened: m2.opened },
                ls.push(l),
            )
        }
    }
}

/// Drawing one commit: its lane, the lanes passing by, the parent edges,
/// and the lanes freed afterwards.
pub open spec fn lane_step(m: LaneModel, id: Seq<char>, parents: Seq<Seq<char>>) -> (
    LaneModel,
    RowLanes,
) {
    let (lane, m1) = lane_for_commit(m, id);
    let pass = used_lanes(m1.reserved).remove(lane);
    let (m2, pl) = assign_parents(m1, lane, parents);
    let alive = pass.insert(lane);
    let m3 = LaneModel {
        reserved: m2.reserved,
        free: m2.free.union(alive.filter(|l: int| !lane_in_use(m2.reserved, l))),
        opened: m2.opened,
    };
    (m3, RowLanes { lane, passthrough: pass, parent_lanes: pl })
}

/// The layout of commits, each an id with its parent ids, in walk order.
pub open spec fn lane_layout(commits: Seq<(Seq<char>, Seq<Seq<char>>)>) -> (
    LaneModel,
    Seq<RowLanes>,
)
    decreases commits.len(),
{
    if commits.len() == 0 {
        (empty_model(), Seq::empty())
    } else {
        let (m, rows) = lane_layout(commits.drop_last());
        let (m2, row) = lane_step(m, commits.last().0, commits.last().1);
        (m2, rows.push(row))
    }
}

/// No two awaited commits share a lane.
pub open spec fn injective(r: Map<Seq<char>, int>) -> bool {
    forall|a: Seq<char>, b: Seq<char>|
        #![trigger r[a], r[b]]
        r.contains_key(a) && r.contains_key(b) && a != b ==> r[a] != r[b]
}

/// Every opened lane is either kept by exactly one awaited commit or free,
/// never both.
pub open spec fn lanes_wf(m: LaneModel) -> bool {
    &&& m.reserved.dom().finite()
    &&& m.opened >= 0
    &&& injective(m.reserved)
    &&& forall|l: int| m.free.contains(l) ==> !lane_in_use(m.reserved, l)
    &&& forall|l: int| (0 <= l < m.opened) <==> (m.free.contains(l) || lane_in_use(m.reserved, l))
}

/// `lanes_wf` while a commit holds `lane` that nothing else keeps yet.
pub open spec fn held(m: LaneModel, lane: int) -> bool {
    &&& m.reserved.dom().finite()
    &&& injective(m.reserved)
    &&& forall|l: int| m.free.contains(l) ==> !lane_in_use(m.reserved, l)
    &&& !m.free.contains(lane)
    &&& 0 <= lane < m.opened
    &&& forall|l: int|
        (0 <= l < m.opened) <==> (m.free.contains(l) || lane_in_use(m.reserved, l) || l == lane)
}

pub open spec fn keeps_reservations(m: LaneModel, m2: LaneModel) -> bool {
    forall|k: Seq<char>|
        #[trigger] m.reserved.contains_key(k) ==> m2.reserved.contains_key(k) && m2.reserved[k]
            == m.reserved[k]
}

// ---------------------------------------------------------------------------
// Lemmas
// ---------------------------------------------------------------------------

/// A set of non-negative integers with an element has a least element.
pub proof fn lemma_least(s: Set<int>, x: int)
    requires
        s.contains(x),
        forall|y: int| s.contains(y) ==> y >= 0,
    ensures
        s.contains(least(s)),
        forall|y: int| s.contains(y) ==> least(s) <= y,
    decreases x,
{
    if exists|y: int| s.contains(y) && y < x {
        let y = choose|y: int| s.contains(y) && y < x;
        lemma_least(s, y);
    } else {
        assert(s.contains(x) && forall|y: int| s.contains(y) ==> x <= y);
    }
}

/// `least` of a set is the element that is below all others.
pub proof fn lemma_least_is(s: Set<int>, x: int)
    requires
        s.contains(x),
        forall|y: int| s.contains(y) ==> x <= y,
    ensures
        least(s) == x,
{
    let z = least(s);
    assert(s.contains(z) && forall|y: int| s.contains(y) ==> z <= y);
}

proof fn lemma_in_use_insert(r: Map<Seq<char>, int>, p: Seq<char>, l: int)
    requires
        !r.contains_key(p),
    ensures
        forall|q: int| lane_in_use(r.insert(p, l), q) <==> (lane_in_use(r, q) || q == l),
{
    reveal(lane_in_use);
    let r2 = r.insert(p, l);
    assert forall|q: int| lane_in_use(r2, q) <==> (lane_in_use(r, q) || q == l) by {
        if lane_in_use(r, q) {
            let k = choose|k: Seq<char>| #[trigger] r.contains_key(k) && r[k] == q;
            assert(r2.contains_key(k) && r2[k] == q);
        }
        if q == l {
            assert(r2.contains_key(p) && r2[p] == q);
        }
        if lane_in_use(r2, q) {
            let k = choose|k: Seq<char>| #[trigger] r2.contains_key(k) && r2[k] == q;
            if k != p {
                assert(r.contains_key(k) && r[k] == q);
            }
        }
    }
}

proof fn lemma_injective_insert(r: Map<Seq<char>, int>, p: Seq<char>, l: int)
    requires
        injective(r),
        !r.contains_key(p),
        !lane_in_use(r, l),
    ensures
        injective(r.insert(p, l)),
{
    reveal(lane_in_use);
    let r2 = r.insert(p, l);
    assert forall|a: Seq<char>, b: Seq<char>|
        r2.contains_key(a) && r2.contains_key(b) && a != b implies r2[a] != r2[b] by {
        if a == p {
            assert(r.contains_key(b) && r[b] == r2[b]);
        } else if b == p {
            assert(r.contains_key(a) && r[a] == r2[a]);
        } else {
            assert(r[a] != r[b]);
        }
    }
}

/// Taking a lane with `open_lane` yields a lane nothing uses.
proof fn lemma_open_lane(m: LaneModel, lane: int, lane_held: bool)
    requires
        lane_held ==> held(m, lane),
        !lane_held ==> lanes_wf(m),
    ensures
        ({
            let (l, m2) = open_lane(m);
            &&& !lane_in_use(m.reserved, l)
            &&& !m2.free.contains(l)
            &&& 0 <= l < m2.opened
            &&& (lane_held ==> l != lane)
            &&& m2.reserved == m.reserved
            &&& m2.opened >= m.opened
            &&& forall|q: int| m2.free.contains(q) <==> (m.free.contains(q) && q != l)
            &&& forall|q: int|
                #![trigger m.free.contains(q)]
                (0 <= q < m2.opened) <==> (0 <= q < m.opened || q == l)
            &&& (has_free_lane(m) ==> l == least(m.free) && m.free.contains(l))
            &&& (!has_free_lane(m) ==> l == m.opened)
        }),
{
    if has_free_lane(m) {
        let x = choose|x: int| m.free.contains(x);
        assert forall|y: int| m.free.contains(y) implies y >= 0 by {}
        lemma_least(m.free, x);
    }
}

/// Reserving the commit's own lane for its first parent keeps `held`.
proof fn lemma_reserve_first(m: LaneModel, lane: int, p: Seq<char>)
    requires
        held(m, lane),
        !m.reserved.contains_key(p),
        !lane_in_use(m.reserved, lane),
    ensures
        held(LaneModel { reserved: m.reserved.insert(p, lane), free: m.free, opened: m.opened }, lane),
        forall|q: int| lane_in_use(m.reserved.insert(p, lane), q) <==> (lane_in_use(m.reserved, q) || q == lane),
{
    let m2 = LaneModel { reserved: m.reserved.insert(p, lane), free: m.free, opened: m.opened };
    lemma_in_use_insert(m.reserved, p, lane);
    lemma_injective_insert(m.reserved, p, lane);
    assert(m2.reserved.dom() == m.reserved.dom().insert(p));
}

/// Reserving a newly taken lane for a later parent keeps `held`.
#[verifier::rlimit(60)]
proof fn lemma_reserve_opened(m: LaneModel, lane: int, p: Seq<char>)
    requires
        held(m, lane),
        !m.reserved.contains_key(p),
    ensures
        ({
            let l = open_lane(m).0;
            let mo = open_lane(m).1;
            let m2 = LaneModel { reserved: mo.reserved.insert(p, l), free: mo.free, opened: mo.opened };
            &&& held(m2, lane)
            &&& 0 <= l < m2.opened
            &&& m2.opened >= m.opened
            &&& forall|q: int| lane_in_use(m2.reserved, q) <==> (lane_in_use(m.reserved, q) || q == l)
        }),
{
    let l = open_lane(m).0;
    let mo = open_lane(m).1;
    let m2 = LaneModel { reserved: mo.reserved.insert(p, l), free: mo.free, opened: mo.opened };
    lemma_open_lane(m, lane, true);
    lemma_in_use_insert(m.reserved, p, l);
    lemma_injective_insert(m.reserved, p, l);
    assert(m2.reserved.dom() == m.reserved.dom().insert(p));
    assert forall|q: int|
        (0 <= q < m2.opened) <==> (m2.free.contains(q) || lane_in_use(m2.reserved, q) || q
            == lane) by {
        assert((0 <= q < m2.opened) <==> (0 <= q < m.opened || q == l));
        assert(m2.free.contains(q) <==> (m.free.contains(q) && q != l));
        assert((0 <= q < m.opened) <==> (m.free.contains(q) || lane_in_use(m.reserved, q) || q
            == lane));
        assert(lane_in_use(m2.reserved, q) <==> (lane_in_use(m.reserved, q) || q == l));
    }
}

/// Everything `assign_parents` guarantees.
pub proof fn lemma_assign_parents(m: LaneModel, lane: int, parents: Seq<Seq<char>>)
    requires
        held(m, lane),
        !lane_in_use(m.reserved, lane),
    ensures
        ({
            let (m2, pl) = assign_parents(m, lane, parents);
            &&& held(m2, lane)
            &&& keeps_reservations(m, m2)
            &&& pl.len() == parents.len()
            &&& m2.opened >= m.opened
            &&& forall|i: int|
                0 <= i < parents.len() ==> #[trigger] m2.reserved.contains_key(parents[i])
                    && m2.reserved[parents[i]] == pl[i]
            &&& forall|k: Seq<char>|
                #[trigger] m2.reserved.contains_key(k) ==> m.reserved.contains_key(k)
                    || parents.contains(k)
            &&& forall|i: int| 0 <= i < pl.len() ==> 0 <= #[trigger] pl[i] < m2.opened
            &&& (parents.len() > 0 && !m.reserved.contains_key(parents[0]) ==> pl[0] == lane)
            &&& forall|q: int| lane_in_use(m.reserved, q) ==> lane_in_use(m2.reserved, q)
        }),
    decreases parents.len(),
{
    if parents.len() > 0 {
        let (m1, ls) = assign_parents(m, lane, parents.drop_last());
        lemma_assign_parents(m, lane, parents.drop_last());
        let p = parents.last();
        let (m2, pl) = assign_parents(m, lane, parents);
        assert forall|i: int| 0 <= i < parents.len() - 1 implies parents.drop_last()[i]
            == parents[i] by {}
        if m1.reserved.contains_key(p) {
            assert(m2 == m1);
            lemma_in_use_intro(m1.reserved, p);
        } else {
            if parents.len() == 1 {
                assert(parents.drop_last().len() == 0);
                assert(m1 == m);
            }
            if parents.len() == 1 {
                lemma_reserve_first(m1, lane, p);
            } else {
                lemma_reserve_opened(m1, lane, p);
            }
        }
        assert forall|k: Seq<char>| #[trigger] m2.reserved.contains_key(k) implies m.reserved.contains_key(k)
            || parents.contains(k) by {
            if k == p {
                assert(parents[parents.len() - 1] == k);
            } else {
                assert(m1.reserved.contains_key(k));
                if parents.drop_last().contains(k) {
                    let j = choose|j: int| 0 <= j < parents.drop_last().len() && parents.drop_last()[j] == k;
                    assert(parents[j] == k);
                }
            }
        }
        assert forall|i: int| 0 <= i < parents.len() implies #[trigger] m2.reserved.contains_key(parents[i])
            && m2.reserved[parents[i]] == pl[i] by {
            if i < parents.len() - 1 {
                assert(parents.drop_last()[i] == parents[i]);
                assert(m1.reserved.contains_key(parents[i]));
            }
        }
        assert(keeps_reservations(m1, m2));
        assert(keeps_reservations(m, m2));
        lemma_in_use_mono(m, m2);
        assert forall|i: int| 0 <= i < pl.len() implies 0 <= #[trigger] pl[i] < m2.opened by {
            if i < parents.len() - 1 {
                assert(ls[i] == pl[i]);
            }
        }
        if parents.len() > 1 {
            assert(pl[0] == ls[0]);
            assert(parents.drop_last()[0] == parents[0]);
        }
    }
}

proof fn lemma_in_use_intro(r: Map<Seq<char>, int>, k: Seq<char>)
    requires
        r.contains_key(k),
    ensures
        lane_in_use(r, r[k]),
{
    reveal(lane_in_use);
}

proof fn lemma_in_use_mono(m: LaneModel, m2: LaneModel)
    requires
        keeps_reservations(m, m2),
    ensures
        forall|q: int| lane_in_use(m.reserved, q) ==> lane_in_use(m2.reserved, q),
{
    reveal(lane_in_use);
    assert forall|q: int| lane_in_use(m.reserved, q) implies lane_in_use(m2.reserved, q) by {
        let k = choose|k: Seq<char>| #[trigger] m.reserved.contains_key(k) && m.reserved[k] == q;
        assert(m2.reserved.contains_key(k));
    }
}

proof fn lemma_remove_reserved(m: LaneModel, id: Seq<char>)
    requires
        lanes_wf(m),
        m.reserved.contains_key(id),
    ensures
        ({
            let lane = m.reserved[id];
            let m1 = LaneModel { reserved: m.reserved.remove(id), free: m.free, opened: m.opened };
            &&& held(m1, lane)
            &&& !lane_in_use(m1.reserved, lane)
            &&& forall|q: int| lane_in_use(m1.reserved, q) ==> lane_in_use(m.reserved, q)
            &&& forall|q: int| q != lane ==> (lane_in_use(m1.reserved, q) <==> lane_in_use(m.reserved, q))
        }),
{
    reveal(lane_in_use);
    let lane = m.reserved[id];
    let r = m.reserved;
    let r1 = m.reserved.remove(id);
    let m1 = LaneModel { reserved: r1, free: m.free, opened: m.opened };
    assert forall|q: int| lane_in_use(r, q) <==> (lane_in_use(r1, q) || q == lane) by {
        if lane_in_use(r, q) && q != lane {
            let k = choose|k: Seq<char>| #[trigger] r.contains_key(k) && r[k] == q;
            assert(r1.contains_key(k) && r1[k] == q);
        }
        if lane_in_use(r1, q) {
            let k = choose|k: Seq<char>| #[trigger] r1.contains_key(k) && r1[k] == q;
            assert(r.contains_key(k) && r[k] == q);
        }
        if q == lane {
            assert(r.contains_key(id) && r[id] == q);
        }
    }
    assert(!lane_in_use(r1, lane)) by {
        if lane_in_use(r1, lane) {
            let k = choose|k: Seq<char>| #[trigger] r1.contains_key(k) && r1[k] == lane;
            assert(r[k] == r[id]);
        }
    }
    assert(r1.dom() == r.dom().remove(id));
    assert(injective(r1)) by {
        assert forall|a: Seq<char>, b: Seq<char>|
            r1.contains_key(a) && r1.contains_key(b) && a != b implies r1[a] != r1[b] by {
            assert(r[a] != r[b]);
        }
    }
    assert(!m.free.contains(lane)) by {
        assert(lane_in_use(r, lane));
    }
}

/// Everything `lane_for_commit` guarantees on a well-formed model.
#[verifier::rlimit(60)]
pub proof fn lemma_lane_for_commit(m: LaneModel, id: Seq<char>)
    requires
        lanes_wf(m),
    ensures
        ({
            let (lane, m1) = lane_for_commit(m, id);
            &&& held(m1, lane)
            &&& !lane_in_use(m1.reserved, lane)
            &&& !m1.reserved.contains_key(id)
            &&& m1.reserved == m.reserved.remove(id)
            &&& m1.opened >= m.opened
            &&& forall|q: int| lane_in_use(m1.reserved, q) ==> lane_in_use(m.reserved, q)
            &&& forall|q: int| q != lane ==> (lane_in_use(m1.reserved, q) <==> lane_in_use(m.reserved, q))
        }),
{
    if m.reserved.contains_key(id) {
        lemma_remove_reserved(m, id);
    } else {
        let (lane, m1) = lane_for_commit(m, id);
        lemma_open_lane(m, 0, false);
        assert(m1.reserved == m.reserved.remove(id));
        assert forall|q: int|
            (0 <= q < m1.opened) <==> (m1.free.contains(q) || lane_in_use(m1.reserved, q) || q
                == lane) by {
            assert((0 <= q < m1.opened) <==> (0 <= q < m.opened || q == lane));
            assert(m1.free.contains(q) <==> (m.free.contains(q) && q != lane));
        }
    }
}

// ---------------------------------------------------------------------------
// Laws
// ---------------------------------------------------------------------------

/// Drawing one commit keeps the lanes well formed: every opened lane stays
/// either kept by exactly one awaited commit or free. The commit is drawn
/// in the lane kept for it, or else in the lowest free lane, and a new lane
/// is opened only when none is free. The lanes passing by are those kept
/// for other awaited commits, and every lane of the row is an opened one.
#[verifier::rlimit(60)]
pub proof fn law_lane_step(m: LaneModel, id: Seq<char>, parents: Seq<Seq<char>>)
    requires
        lanes_wf(m),
    ensures
        ({
            let (m2, row) = lane_step(m, id, parents);
            &&& lanes_wf(m2)
            &&& m2.opened >= m.opened
            &&& 0 <= row.lane < m2.opened
            &&& (m.reserved.contains_key(id) ==> row.lane == m.reserved[id])
            &&& (!m.reserved.contains_key(id) && has_free_lane(m) ==> row.lane == least(m.free)
                && m.free.contains(row.lane))
            &&& (!m.reserved.contains_key(id) && !has_free_lane(m) ==> row.lane == m.opened)
            &&& !row.passthrough.contains(row.lane)
            &&& forall|l: int|
                #[trigger] row.passthrough.contains(l) <==> (l != row.lane && exists|k: Seq<char>|
                    #[trigger] m.reserved.contains_key(k) && k != id && m.reserved[k] == l)
            &&& forall|l: int| #[trigger] row.passthrough.contains(l) ==> 0 <= l < m2.opened
            &&& row.parent_lanes.len() == parents.len()
            &&& forall|i: int|
                0 <= i < row.parent_lanes.len() ==> 0 <= #[trigger] row.parent_lanes[i] < m2.opened
        }),
{
    let (lane, m1) = lane_for_commit(m, id);
    lemma_lane_for_commit(m, id);
    let pass = used_lanes(m1.reserved).remove(lane);
    let (m2, pl) = assign_parents(m1, lane, parents);
    lemma_assign_parents(m1, lane, parents);
    let (m3, row) = lane_step(m, id, parents);
    assert forall|l: int| l != lane && lane_in_use(m1.reserved, l) implies lane_in_use(m2.reserved, l) by {}
    assert forall|q: int| lane_in_use(m3.reserved, q) <==> lane_in_use(m2.reserved, q) by {}
    assert forall|q: int| m3.free.contains(q) <==> (m2.free.contains(q) || (q == lane
        && !lane_in_use(m2.reserved, lane))) by {
        if q != lane && pass.contains(q) {
            assert(lane_in_use(m2.reserved, q));
        }
    }
    assert forall|l: int|
        #[trigger] row.passthrough.contains(l) <==> (l != row.lane && exists|k: Seq<char>|
            #[trigger] m.reserved.contains_key(k) && k != id && m.reserved[k] == l) by {
        reveal(lane_in_use);
        if l != lane && lane_in_use(m1.reserved, l) {
            let k = choose|k: Seq<char>| #[trigger] m1.reserved.contains_key(k) && m1.reserved[k] == l;
            assert(m.reserved.contains_key(k) && k != id && m.reserved[k] == l);
        }
        if l != lane && exists|k: Seq<char>|
            #[trigger] m.reserved.contains_key(k) && k != id && m.reserved[k] == l {
            let k = choose|k: Seq<char>|
                #[trigger] m.reserved.contains_key(k) && k != id && m.reserved[k] == l;
            assert(m1.reserved.contains_key(k));
        }
    }
}

/// Drawing a commit leaves every other awaited commit on the lane kept for
/// it; afterwards the awaited commits are the earlier ones minus the drawn
/// commit plus its parents, and each parent edge goes to the lane now kept
/// for that parent. A first parent that was not awaited continues the
/// commit's own lane.
pub proof fn law_lane_step_reservations(m: LaneModel, id: Seq<char>, parents: Seq<Seq<char>>)
    requires
        lanes_wf(m),
    ensures
        ({
            let (m2, row) = lane_step(m, id, parents);
            &&& forall|k: Seq<char>|
                #[trigger] m.reserved.contains_key(k) && k != id ==> m2.reserved.contains_key(k)
                    && m2.reserved[k] == m.reserved[k]
            &&& forall|k: Seq<char>|
                #[trigger] m2.reserved.contains_key(k) <==> ((m.reserved.contains_key(k) && k != id)
                    || parents.contains(k))
            &&& forall|i: int|
                0 <= i < parents.len() ==> #[trigger] m2.reserved[parents[i]]
                    == row.parent_lanes[i]
            &&& (parents.len() > 0 && (parents[0] == id || !m.reserved.contains_key(parents[0]))
                ==> row.parent_lanes[0] == row.lane)
        }),
{
    let (lane, m1) = lane_for_commit(m, id);
    lemma_lane_for_commit(m, id);
    lemma_assign_parents(m1, lane, parents);
    let (m2, row) = lane_step(m, id, parents);
    assert forall|k: Seq<char>| #[trigger] m2.reserved.contains_key(k) <==> ((m.reserved.contains_key(k)
        && k != id) || parents.contains(k)) by {
        if parents.contains(k) {
            let j = choose|j: int| 0 <= j < parents.len() && parents[j] == k;
            assert(m2.reserved.contains_key(parents[j]));
        }
        if m.reserved.contains_key(k) && k != id {
            assert(m1.reserved.contains_key(k));
        }
    }
}

/// The layout of any walk keeps the lanes well formed, and every lane
/// a row uses is one of the lanes opened by the end of the walk.
#[verifier::rlimit(60)]
pub proof fn law_layout_wf(commits: Seq<(Seq<char>, Seq<Seq<char>>)>)
    ensures
        ({
            let (m, rows) = lane_layout(commits);
            &&& lanes_wf(m)
            &&& rows.len() == commits.len()
            &&& forall|j: int|
                0 <= j < rows.len() ==> {
                    &&& 0 <= #[trigger] rows[j].lane < m.opened
                    &&& rows[j].parent_lanes.len() == commits[j].1.len()
                    &&& forall|l: int| rows[j].passthrough.contains(l) ==> 0 <= l < m.opened
                    &&& forall|i: int|
                        0 <= i < rows[j].parent_lanes.len() ==> 0 <= #[trigger] rows[j].parent_lanes[i]
                            < m.opened
                }
        }),
    decreases commits.len(),
{
    if commits.len() == 0 {
        assert(lanes_wf(empty_model())) by {
            reveal(lane_in_use);
            assert(empty_model().reserved.dom() =~= Set::empty());
        }
    } else {
        let (m, rows) = lane_layout(commits.drop_last());
        law_layout_wf(commits.drop_last());
        law_lane_step(m, commits.last().0, commits.last().1);
        let (m2, rows2) = lane_layout(commits);
        let row = lane_step(m, commits.last().0, commits.last().1).1;
        assert(rows2 == rows.push(row));
        assert forall|j: int| 0 <= j < rows2.len() implies {
            &&& 0 <= #[trigger] rows2[j].lane < m2.opened
            &&& rows2[j].parent_lanes.len() == commits[j].1.len()
            &&& forall|l: int| rows2[j].passthrough.contains(l) ==> 0 <= l < m2.opened
            &&& forall|i: int|
                0 <= i < rows2[j].parent_lanes.len() ==> 0 <= #[trigger] rows2[j].parent_lanes[i]
                    < m2.opened
        } by {
            if j < rows2.len() - 1 {
                assert(rows2[j] == rows[j]);
                assert(commits[j] == commits.drop_last()[j]);
            } else {
                assert(rows2[j] == row);
            }
        }
    }
}

proof fn lemma_assign_parents_opened(m: LaneModel, lane: int, parents: Seq<Seq<char>>)
    ensures
        ({
            let (m2, pl) = assign_parents(m, lane, parents);
            &&& m2.opened >= m.opened
            &&& pl.len() == parents.len()
            &&& forall|l: int| m.opened <= l < m2.opened ==> #[trigger] pl.contains(l)
        }),
    decreases parents.len(),
{
    if parents.len() > 0 {
        let (m1, ls) = assign_parents(m, lane, parents.drop_last());
        lemma_assign_parents_opened(m, lane, parents.drop_last());
        let (m2, pl) = assign_parents(m, lane, parents);
        assert forall|l: int| m.opened <= l < m2.opened implies #[trigger] pl.contains(l) by {
            if l < m1.opened {
                assert(ls.contains(l));
                let i = choose|i: int| 0 <= i < ls.len() && ls[i] == l;
                assert(pl[i] == ls[i]);
            } else {
                assert(pl[pl.len() - 1] == l);
            }
        }
    }
}

/// A row shows lane `l`: its own, one passing by, or one its edges go to.
pub open spec fn row_shows_lane(row: RowLanes, l: int) -> bool {
    row.lane == l || row.passthrough.contains(l) || row.parent_lanes.contains(l)
}

/// Some row shows lane `l`.
pub open spec fn lane_shown(rows: Seq<RowLanes>, l: int) -> bool {
    exists|j: int| 0 <= j < rows.len() && #[trigger] row_shows_lane(rows[j], l)
}

/// No lane is opened in vain: every lane the walk opened is shown by some
/// row, so the graph is exactly as wide as the lanes opened.
pub proof fn law_opened_lanes_shown(commits: Seq<(Seq<char>, Seq<Seq<char>>)>)
    ensures
        forall|l: int|
            0 <= l < lane_layout(commits).0.opened ==> #[trigger] lane_shown(
                lane_layout(commits).1,
                l,
            ),
    decreases commits.len(),
{
    if commits.len() > 0 {
        let (m, rows) = lane_layout(commits.drop_last());
        law_opened_lanes_shown(commits.drop_last());
        let (m3, rows3) = lane_layout(commits);
        let id = commits.last().0;
        let parents = commits.last().1;
        let (lane, m1) = lane_for_commit(m, id);
        let (m2, pl) = assign_parents(m1, lane, parents);
        lemma_assign_parents_opened(m1, lane, parents);
        let row = lane_step(m, id, parents).1;
        assert(rows3 == rows.push(row));
        assert forall|l: int| 0 <= l < m3.opened implies #[trigger] lane_shown(rows3, l) by {
            if l < m.opened {
                assert(lane_shown(rows, l));
                let j = choose|j: int| 0 <= j < rows.len() && #[trigger] row_shows_lane(rows[j], l);
                assert(rows3[j] == rows[j]);
            } else if l < m1.opened {
                assert(l == lane);
                assert(row_shows_lane(rows3[rows.len() as int], l));
            } else {
                assert(pl.contains(l));
                assert(row_shows_lane(rows3[rows.len() as int], l));
            }
        }
    }
}

// ---------------------------------------------------------------------------
// Width of the busiest row
// ---------------------------------------------------------------------------

/// Parent edges a row draws, counting the commit's own lane when it has
/// no parent.
pub open spec fn edges_or_one(n: int) -> int {
    if n <= 0 {
        1
    } else {
        n
    }
}

/// The columns a row needs by itself: the lanes passing by, plus its
/// parent edges (at least one).
pub open spec fn row_need(row: RowLanes) -> int {
    row.passthrough.len() + edges_or_one(row.parent_lanes.len() as int)
}

/// The most columns any one row needs (0 for no rows).
pub open spec fn busiest(rows: Seq<RowLanes>) -> int
    decreases rows.len(),
{
    if rows.len() == 0 {
        0
    } else {
        let b = busiest(rows.drop_last());
        let r = row_need(rows.last());
        if r > b {
            r
        } else {
            b
        }
    }
}

/// The kept lanes, with the lane held by the commit, are finite; with no
/// free lane they are all the opened lanes.
proof fn lemma_held_lanes_finite(m: LaneModel, lane: int)
    requires
        held(m, lane),
    ensures
        used_lanes(m.reserved).finite(),
        used_lanes(m.reserved).insert(lane).finite(),
        !has_free_lane(m) ==> m.opened <= used_lanes(m.reserved).insert(lane).len(),
{
    let u = used_lanes(m.reserved).insert(lane);
    let range = vstd::set_lib::set_int_range(0, m.opened);
    vstd::set_lib::lemma_int_range(0, m.opened);
    assert(u.subset_of(range));
    vstd::set_lib::lemma_len_subset(u, range);
    vstd::set_lib::lemma_len_subset(used_lanes(m.reserved), u);
    if !has_free_lane(m) {
        assert forall|q: int| range.contains(q) implies u.contains(q) by {
            assert(!m.free.contains(q));
        }
        assert(range.subset_of(u));
        vstd::set_lib::lemma_len_subset(range, u);
    }
}

/// Reserving lanes for the parents adds at most one kept lane per parent
/// after the first, and opens a lane only when every opened lane is kept.
#[verifier::rlimit(60)]
proof fn lemma_assign_parents_width(m: LaneModel, lane: int, parents: Seq<Seq<char>>)
    requires
        held(m, lane),
        !lane_in_use(m.reserved, lane),
    ensures
        ({
            let (m2, pl) = assign_parents(m, lane, parents);
            let c = used_lanes(m.reserved).len() as int;
            &&& used_lanes(m2.reserved).insert(lane).finite()
            &&& used_lanes(m2.reserved).insert(lane).len() <= c + edges_or_one(parents.len() as int)
            &&& (m2.opened <= m.opened || m2.opened <= c + edges_or_one(parents.len() as int))
        }),
    decreases parents.len(),
{
    let c = used_lanes(m.reserved).len() as int;
    lemma_held_lanes_finite(m, lane);
    if parents.len() == 0 {
        assert(!used_lanes(m.reserved).contains(lane));
    } else {
        let (m1, ls) = assign_parents(m, lane, parents.drop_last());
        lemma_assign_parents_width(m, lane, parents.drop_last());
        lemma_assign_parents(m, lane, parents.drop_last());
        lemma_held_lanes_finite(m1, lane);
        let u1 = used_lanes(m1.reserved).insert(lane);
        let p = parents.last();
        let (m2, pl) = assign_parents(m, lane, parents);
        if m1.reserved.contains_key(p) {
            assert(m2 == m1);
        } else if parents.len() == 1 {
            assert(parents.drop_last().len() == 0);
            assert(m1 == m);
            lemma_in_use_insert(m1.reserved, p, lane);
            assert(used_lanes(m2.reserved).insert(lane) =~= u1);
        } else {
            let l = open_lane(m1).0;
            lemma_reserve_opened(m1, lane, p);
            assert(used_lanes(m2.reserved).insert(lane) =~= u1.insert(l));
            if !has_free_lane(m1) {
                assert(m2.opened == m1.opened + 1);
                assert(m1.opened <= u1.len());
            } else {
                assert(m2.opened == m1.opened);
            }
        }
    }
}

/// Drawing one commit opens lanes only up to what its row needs by itself:
/// afterwards at most as many lanes are open as before or as the row needs.
pub proof fn law_lane_step_width(m: LaneModel, id: Seq<char>, parents: Seq<Seq<char>>)
    requires
        lanes_wf(m),
    ensures
        ({
            let (m2, row) = lane_step(m, id, parents);
            &&& row.passthrough.finite()
            &&& (m2.opened <= m.opened || m2.opened <= row_need(row))
        }),
{
    let (lane, m1) = lane_for_commit(m, id);
    lemma_lane_for_commit(m, id);
    lemma_held_lanes_finite(m1, lane);
    let pass = used_lanes(m1.reserved).remove(lane);
    assert(pass =~= used_lanes(m1.reserved));
    let c = pass.len() as int;
    if !m.reserved.contains_key(id) && !has_free_lane(m) {
        let range = vstd::set_lib::set_int_range(0, m.opened);
        vstd::set_lib::lemma_int_range(0, m.opened);
        assert(lane == m.opened);
        assert forall|q: int| range.contains(q) implies pass.contains(q) by {
            assert(!m.free.contains(q));
            assert(lane_in_use(m.reserved, q));
        }
        vstd::set_lib::lemma_len_subset(range, pass);
        assert(m1.opened == m.opened + 1);
    } else {
        assert(m1.opened == m.opened);
    }
    lemma_assign_parents_width(m1, lane, parents);
    lemma_assign_parents(m1, lane, parents);
}

/// No pyramid: a walk never opens more lanes than its busiest row needs
/// by itself, however long the history.
pub proof fn law_layout_width(commits: Seq<(Seq<char>, Seq<Seq<char>>)>)
    ensures
        lane_layout(commits).0.opened <= busiest(lane_layout(commits).1),
        forall|j: int|
            0 <= j < lane_layout(commits).1.len() ==> (#[trigger] lane_layout(commits).1[j]).passthrough.finite(),
    decreases commits.len(),
{
    if commits.len() > 0 {
        let (m, rows) = lane_layout(commits.drop_last());
        law_layout_width(commits.drop_last());
        law_layout_wf(commits.drop_last());
        law_lane_step_width(m, commits.last().0, commits.last().1);
        let (m2, rows2) = lane_layout(commits);
        let row = lane_step(m, commits.last().0, commits.last().1).1;
        assert(rows2 == rows.push(row));
        assert(rows2.drop_last() == rows);
        assert forall|j: int| 0 <= j < rows2.len() implies (#[trigger] rows2[j]).passthrough.finite() by {
            if j < rows.len() {
                assert(rows2[j] == rows[j]);
            }
        }
    }
}

/// The lanes of a strictly increasing sequence are as many as its entries.
pub proof fn lemma_lane_set_len(s: Seq<usize>)
    requires
        strictly_increasing(s),
    ensures
        lane_set(s).finite(),
        lane_set(s).len() == s.len(),
    decreases s.len(),
{
    if s.len() == 0 {
        assert(lane_set(s) =~= Set::empty());
    } else {
        let t = s.drop_last();
        assert(strictly_increasing(t)) by {
            assert forall|i: int, j: int| 0 <= i < j < t.len() implies t[i] < t[j] by {
                assert(t[i] == s[i] && t[j] == s[j]);
            }
        }
        lemma_lane_set_len(t);
        assert forall|q: int| lane_set(s).contains(q) <==> lane_set(t).insert(s.last() as int).contains(q) by {
            if lane_set(s).contains(q) {
                let i = choose|i: int| 0 <= i < s.len() && s[i] as int == q;
                if i < t.len() {
                    assert(t[i] == s[i]);
                }
            }
            if lane_set(t).contains(q) {
                let i = choose|i: int| 0 <= i < t.len() && t[i] as int == q;
                assert(t[i] == s[i]);
            }
        }
        assert(lane_set(s) =~= lane_set(t).insert(s.last() as int));
        assert(!lane_set(t).contains(s.last() as int)) by {
            if lane_set(t).contains(s.last() as int) {
                let i = choose|i: int| 0 <= i < t.len() && t[i] as int == s.last() as int;
                assert(t[i] == s[i]);
                assert(s[i] < s[s.len() - 1]);
            }
        }
    }
}

// ---------------------------------------------------------------------------
// Reuse of the lowest lane
// ---------------------------------------------------------------------------

/// The lanes given to the first `j` parents depend on those parents only.
proof fn lemma_assign_parents_prefix(m: LaneModel, lane: int, parents: Seq<Seq<char>>, j: int)
    requires
        0 <= j <= parents.len(),
    ensures
        assign_parents(m, lane, parents).1.take(j) == assign_parents(m, lane, parents.take(j)).1,
    decreases parents.len(),
{
    if j == parents.len() {
        assert(parents.take(j) == parents);
        lemma_assign_parents_len(m, lane, parents);
        assert(assign_parents(m, lane, parents).1.take(j) == assign_parents(m, lane, parents).1);
    } else {
        let t = parents.drop_last();
        lemma_assign_parents_prefix(m, lane, t, j);
        assert(t.take(j) == parents.take(j));
        lemma_assign_parents_len(m, lane, t);
        let ls = assign_parents(m, lane, t).1;
        let pl = assign_parents(m, lane, parents).1;
        assert(pl.take(j) == ls.take(j));
    }
}

proof fn lemma_assign_parents_len(m: LaneModel, lane: int, parents: Seq<Seq<char>>)
    ensures
        assign_parents(m, lane, parents).1.len() == parents.len(),
    decreases parents.len(),
{
    if parents.len() > 0 {
        lemma_assign_parents_len(m, lane, parents.drop_last());
    }
}

/// The lanes kept after reserving for some parents: those kept before and
/// those the parents' edges went to.
proof fn lemma_assign_parents_in_use(m: LaneModel, lane: int, parents: Seq<Seq<char>>)
    requires
        held(m, lane),
        !lane_in_use(m.reserved, lane),
    ensures
        ({
            let (mk, plk) = assign_parents(m, lane, parents);
            &&& held(mk, lane)
            &&& forall|q: int|
                lane_in_use(mk.reserved, q) ==> lane_in_use(m.reserved, q) || plk.contains(q)
            &&& forall|i: int| 0 <= i < plk.len() ==> lane_in_use(mk.reserved, #[trigger] plk[i])
            &&& forall|q: int| lane_in_use(m.reserved, q) ==> lane_in_use(mk.reserved, q)
            &&& forall|k: Seq<char>|
                #[trigger] mk.reserved.contains_key(k) ==> m.reserved.contains_key(k)
                    || parents.contains(k)
        }),
{
    let (mk, plk) = assign_parents(m, lane, parents);
    lemma_assign_parents(m, lane, parents);
    assert forall|q: int| lane_in_use(mk.reserved, q) implies lane_in_use(m.reserved, q)
        || plk.contains(q) by {
        reveal(lane_in_use);
        let key = choose|key: Seq<char>| #[trigger] mk.reserved.contains_key(key) && mk.reserved[key] == q;
        if !m.reserved.contains_key(key) {
            assert(parents.contains(key));
            let i = choose|i: int| 0 <= i < parents.len() && parents[i] == key;
            assert(mk.reserved.contains_key(parents[i]) && mk.reserved[parents[i]] == plk[i]);
            assert(plk.contains(q));
        } else {
            assert(keeps_reservations(m, mk));
            assert(mk.reserved[key] == m.reserved[key]);
        }
    }
    assert forall|i: int| 0 <= i < plk.len() implies lane_in_use(mk.reserved, #[trigger] plk[i]) by {
        assert(mk.reserved.contains_key(parents[i]) && mk.reserved[parents[i]] == plk[i]);
        lemma_in_use_intro(mk.reserved, parents[i]);
    }
}

/// A lane taken with `open_lane` while a commit holds `lane` is the lowest
/// lane that neither an awaited commit nor the commit keeps.
proof fn lemma_open_lane_least(m: LaneModel, lane: int)
    requires
        held(m, lane),
    ensures
        open_lane(m).0 >= 0,
        open_lane(m).0 != lane,
        !lane_in_use(m.reserved, open_lane(m).0),
        forall|n: int| 0 <= n < open_lane(m).0 ==> lane_in_use(m.reserved, n) || n == lane,
{
    let l = open_lane(m).0;
    lemma_open_lane(m, lane, true);
    assert forall|n: int| 0 <= n < l implies lane_in_use(m.reserved, n) || n == lane by {
        if has_free_lane(m) {
            let x = choose|x: int| m.free.contains(x);
            assert forall|y: int| m.free.contains(y) implies y >= 0 by {}
            lemma_least(m.free, x);
            assert(!m.free.contains(n));
        }
        assert(0 <= n < m.opened);
    }
}

/// A parent that gets a lane of its own gets the lowest lane that nothing
/// kept, the commit itself, or the earlier parents' edges hold.
proof fn lemma_parent_lane_least(m: LaneModel, lane: int, parents: Seq<Seq<char>>, k: int)
    requires
        held(m, lane),
        !lane_in_use(m.reserved, lane),
        1 <= k < parents.len(),
        !m.reserved.contains_key(parents[k]),
        !parents.take(k).contains(parents[k]),
    ensures
        ({
            let pl = assign_parents(m, lane, parents).1;
            &&& pl[k] >= 0
            &&& !lane_in_use(m.reserved, pl[k])
            &&& pl[k] != lane
            &&& !pl.take(k).contains(pl[k])
            &&& forall|n: int|
                0 <= n < pl[k] ==> lane_in_use(m.reserved, n) || n == lane || pl.take(k).contains(n)
        }),
{
    let pre = parents.take(k);
    let pre1 = parents.take(k + 1);
    let (mk, plk) = assign_parents(m, lane, pre);
    lemma_assign_parents_in_use(m, lane, pre);
    let p = parents[k];
    assert(pre1.drop_last() == pre);
    assert(pre1.last() == p);
    assert(!mk.reserved.contains_key(p));
    let l = open_lane(mk).0;
    let pl1 = assign_parents(m, lane, pre1).1;
    assert(pl1 == plk.push(l));
    let pl = assign_parents(m, lane, parents).1;
    assert(pl[k] == l && pl.take(k) == plk) by {
        lemma_assign_parents_prefix(m, lane, parents, k);
        lemma_assign_parents_prefix(m, lane, parents, k + 1);
        lemma_assign_parents_len(m, lane, parents);
        assert(pl.take(k + 1)[k] == pl[k]);
    }
    lemma_open_lane_least(mk, lane);
    assert(!plk.contains(l)) by {
        if plk.contains(l) {
            let i = choose|i: int| 0 <= i < plk.len() && plk[i] == l;
            assert(lane_in_use(mk.reserved, plk[i]));
        }
    }
}

/// A commit that nothing awaited is drawn in the lowest lane that no lane
/// passing by takes; a later parent that nothing awaited and that the
/// commit names for the first time gets the lowest lane that neither a
/// passing lane, the commit's own lane nor an earlier parent edge takes.
pub proof fn law_lane_step_least_unused(m: LaneModel, id: Seq<char>, parents: Seq<Seq<char>>)
    requires
        lanes_wf(m),
    ensures
        ({
            let row = lane_step(m, id, parents).1;
            &&& !m.reserved.contains_key(id) ==> forall|n: int|
                0 <= n < row.lane ==> #[trigger] row.passthrough.contains(n)
            &&& forall|k: int|
                1 <= k < parents.len() && !m.reserved.contains_key(parents[k])
                    && !parents.take(k).contains(parents[k]) ==> {
                    &&& !row.passthrough.contains(#[trigger] row.parent_lanes[k])
                    &&& row.parent_lanes[k] != row.lane
                    &&& !row.parent_lanes.take(k).contains(row.parent_lanes[k])
                    &&& forall|n: int|
                        0 <= n < row.parent_lanes[k] ==> row.passthrough.contains(n) || n
                            == row.lane || row.parent_lanes.take(k).contains(n)
                }
        }),
{
    let (lane, m1) = lane_for_commit(m, id);
    lemma_lane_for_commit(m, id);
    law_lane_step(m, id, parents);
    let row = lane_step(m, id, parents).1;
    assert forall|n: int| lane_in_use(m1.reserved, n) && n != lane implies row.passthrough.contains(n) by {}
    if !m.reserved.contains_key(id) {
        assert forall|n: int| 0 <= n < row.lane implies #[trigger] row.passthrough.contains(n) by {
            if has_free_lane(m) {
                let x = choose|x: int| m.free.contains(x);
                assert forall|y: int| m.free.contains(y) implies y >= 0 by {}
                lemma_least(m.free, x);
                assert(!m.free.contains(n));
            }
            assert(0 <= n < m.opened);
            assert(lane_in_use(m.reserved, n));
        }
    }
    assert forall|k: int|
        1 <= k < parents.len() && !m.reserved.contains_key(parents[k])
            && !parents.take(k).contains(parents[k]) implies {
            &&& !row.passthrough.contains(#[trigger] row.parent_lanes[k])
            &&& row.parent_lanes[k] != row.lane
            &&& !row.parent_lanes.take(k).contains(row.parent_lanes[k])
            &&& forall|n: int|
                0 <= n < row.parent_lanes[k] ==> row.passthrough.contains(n) || n == row.lane
                    || row.parent_lanes.take(k).contains(n)
        } by {
        assert(!m1.reserved.contains_key(parents[k]));
        lemma_parent_lane_least(m1, lane, parents, k);
    }
}

/// The model after the first `t` commits of a walk.
pub open spec fn model_after(commits: Seq<(Seq<char>, Seq<Seq<char>>)>, t: int) -> LaneModel {
    lane_layout(commits.take(t)).0
}

pub proof fn lemma_layout_step(commits: Seq<(Seq<char>, Seq<Seq<char>>)>, t: int)
    requires
        0 <= t < commits.len(),
    ensures
        model_after(commits, t + 1) == lane_step(
            model_after(commits, t),
            commits[t].0,
            commits[t].1,
        ).0,
        lane_layout(commits).1[t] == lane_step(model_after(commits, t), commits[t].0, commits[t].1).1,
        lane_layout(commits).1.len() == commits.len(),
    decreases commits.len(),
{
    assert(commits.take(t + 1).drop_last() == commits.take(t));
    assert(commits.take(t + 1).last() == commits[t]);
    law_layout_wf(commits);
    if t < commits.len() - 1 {
        lemma_layout_step(commits.drop_last(), t);
        assert(commits.drop_last().take(t) == commits.take(t));
        assert(commits.drop_last().take(t + 1) == commits.take(t + 1));
        assert(commits.drop_last()[t] == commits[t]);
        law_layout_wf(commits.drop_last());
    } else {
        assert(commits.drop_last() == commits.take(t));
    }
}

proof fn lemma_reservation_persists(
    commits: Seq<(Seq<char>, Seq<Seq<char>>)>,
    j: int,
    p: Seq<char>,
    l: int,
    t: int,
)
    requires
        0 <= j < t <= commits.len(),
        model_after(commits, j + 1).reserved.contains_key(p),
        model_after(commits, j + 1).reserved[p] == l,
        forall|u: int| j < u < t ==> #[trigger] commits[u].0 != p,
    ensures
        model_after(commits, t).reserved.contains_key(p),
        model_after(commits, t).reserved[p] == l,
    decreases t,
{
    if t > j + 1 {
        lemma_reservation_persists(commits, j, p, l, t - 1);
        lemma_layout_step(commits, t - 1);
        law_layout_wf(commits.take(t - 1));
        law_lane_step_reservations(model_after(commits, t - 1), commits[t - 1].0, commits[t - 1].1);
        assert(commits[t - 1].0 != p);
    }
}

/// A lane kept for a commit other than the one drawn passes by its row.
proof fn lemma_kept_lane_passes(m: LaneModel, id: Seq<char>, parents: Seq<Seq<char>>, p: Seq<char>)
    requires
        lanes_wf(m),
        m.reserved.contains_key(p),
        p != id,
    ensures
        lane_step(m, id, parents).1.passthrough.contains(m.reserved[p]),
{
    let l = m.reserved[p];
    let row = lane_step(m, id, parents).1;
    law_lane_step(m, id, parents);
    lemma_in_use_intro(m.reserved, p);
    if m.reserved.contains_key(id) {
        assert(m.reserved[id] != m.reserved[p]);
    } else if has_free_lane(m) {
        assert(m.free.contains(row.lane));
    }
    assert(row.lane != l);
    assert(m.reserved.contains_key(p) && p != id && m.reserved[p] == l);
    assert(row.passthrough.contains(l));
}

/// Some commit among the first `t` names `p` as a parent.
pub open spec fn named_before(commits: Seq<(Seq<char>, Seq<Seq<char>>)>, t: int, p: Seq<char>) -> bool {
    exists|h: int| 0 <= h < t && #[trigger] commits[h].1.contains(p)
}

/// Only commits named as parents by earlier commits are awaited.
pub proof fn lemma_awaited_named_before(commits: Seq<(Seq<char>, Seq<Seq<char>>)>, t: int)
    requires
        0 <= t <= commits.len(),
    ensures
        forall|k: Seq<char>|
            #[trigger] model_after(commits, t).reserved.contains_key(k) ==> named_before(commits, t, k),
    decreases t,
{
    if t == 0 {
        assert(commits.take(0) =~= Seq::<(Seq<char>, Seq<Seq<char>>)>::empty());
    } else {
        lemma_awaited_named_before(commits, t - 1);
        lemma_layout_step(commits, t - 1);
        law_layout_wf(commits.take(t - 1));
        law_lane_step_reservations(model_after(commits, t - 1), commits[t - 1].0, commits[t - 1].1);
        assert forall|k: Seq<char>|
            #[trigger] model_after(commits, t).reserved.contains_key(k) implies named_before(commits, t, k) by {
            if model_after(commits, t - 1).reserved.contains_key(k) && k != commits[t - 1].0 {
                let h = choose|h: int| 0 <= h < t - 1 && #[trigger] commits[h].1.contains(k);
                assert(0 <= h < t && commits[h].1.contains(k));
            } else {
                assert(commits[t - 1].1.contains(k));
            }
        }
    }
}

/// Lanes are recycled: a commit no earlier commit named as a parent is
/// drawn in the lowest lane no passing lane takes, and a later parent that
/// no earlier commit named, named here for the first time, gets the lowest
/// lane that neither a passing lane, the commit's lane nor an earlier edge
/// of the row takes.
pub proof fn law_layout_least_unused(commits: Seq<(Seq<char>, Seq<Seq<char>>)>, i: int)
    requires
        0 <= i < commits.len(),
    ensures
        ({
            let row = lane_layout(commits).1[i];
            &&& !named_before(commits, i, commits[i].0) ==> forall|n: int|
                0 <= n < row.lane ==> #[trigger] row.passthrough.contains(n)
            &&& forall|k: int|
                1 <= k < commits[i].1.len() && !named_before(commits, i, commits[i].1[k])
                    && !commits[i].1.take(k).contains(commits[i].1[k]) ==> {
                    &&& !row.passthrough.contains(#[trigger] row.parent_lanes[k])
                    &&& row.parent_lanes[k] != row.lane
                    &&& !row.parent_lanes.take(k).contains(row.parent_lanes[k])
                    &&& forall|n: int|
                        0 <= n < row.parent_lanes[k] ==> row.passthrough.contains(n) || n
                            == row.lane || row.parent_lanes.take(k).contains(n)
                }
        }),
{
    lemma_layout_step(commits, i);
    law_layout_wf(commits.take(i));
    lemma_awaited_named_before(commits, i);
    law_lane_step_least_unused(model_after(commits, i), commits[i].0, commits[i].1);
}

/// Edges land on their parent: when row `j` draws an edge to its `k`-th
/// parent and that parent is drawn later in row `i`, with no row between
/// drawing it, the parent is drawn in the very lane the edge went to, and
/// that lane passes by every row in between.
pub proof fn law_edge_lands_on_parent(
    commits: Seq<(Seq<char>, Seq<Seq<char>>)>,
    j: int,
    k: int,
    i: int,
)
    requires
        0 <= j < i < commits.len(),
        0 <= k < commits[j].1.len(),
        commits[i].0 == commits[j].1[k],
        forall|u: int| j < u < i ==> #[trigger] commits[u].0 != commits[j].1[k],
    ensures
        lane_layout(commits).1[i].lane == lane_layout(commits).1[j].parent_lanes[k],
        forall|u: int|
            j < u < i ==> #[trigger] lane_layout(commits).1[u].passthrough.contains(
                lane_layout(commits).1[j].parent_lanes[k],
            ),
{
    let p = commits[j].1[k];
    let rows = lane_layout(commits).1;
    let l = rows[j].parent_lanes[k];
    lemma_layout_step(commits, j);
    law_layout_wf(commits.take(j));
    law_lane_step_reservations(model_after(commits, j), commits[j].0, commits[j].1);
    lemma_reservation_persists(commits, j, p, l, i);
    lemma_layout_step(commits, i);
    law_layout_wf(commits.take(i));
    law_lane_step(model_after(commits, i), commits[i].0, commits[i].1);
    assert forall|u: int| j < u < i implies #[trigger] rows[u].passthrough.contains(l) by {
        lemma_reservation_persists(commits, j, p, l, u);
        lemma_layout_step(commits, u);
        law_layout_wf(commits.take(u));
        assert(commits[u].0 != p);
        lemma_kept_lane_passes(model_after(commits, u), commits[u].0, commits[u].1, p);
    }
}

// ---------------------------------------------------------------------------
// The executable layout engine
// ---------------------------------------------------------------------------

/// A sequence of lane numbers as integers.
pub open spec fn lanes_of(s: Seq<usize>) -> Seq<int> {
    s.map_values(|x: usize| x as int)
}

/// The set of lane numbers in a sequence.
pub open spec fn lane_set(s: Seq<usize>) -> Set<int> {
    Set::new(|l: int| exists|i: int| 0 <= i < s.len() && s[i] as int == l)
}

pub open spec fn strictly_increasing(s: Seq<usize>) -> bool {
    forall|i: int, j: int| 0 <= i < j < s.len() ==> s[i] < s[j]
}

/// The ids of a list of commit ids.
pub open spec fn ids_of(v: Seq<String>) -> Seq<Seq<char>> {
    v.map_values(|s: String| s@)
}

/// Where one commit is drawn.
pub struct Placement {
    /// The lane of the commit.
    pub lane: usize,
    /// Lanes of other branches passing by, in increasing order.
    pub passthrough: Vec<usize>,
    /// For each parent, in order, the lane its edge goes to.
    pub parent_lanes: Vec<usize>,
}

impl Placement {
    /// The placement as the model's row.
    pub open spec fn matches(&self, row: RowLanes) -> bool {
        &&& self.lane as int == row.lane
        &&& strictly_increasing(self.passthrough@)
        &&& lane_set(self.passthrough@) == row.passthrough
        &&& lanes_of(self.parent_lanes@) == row.parent_lanes
    }
}

/// The lanes as the walk leaves them between two commits.
pub struct LaneState {
    /// Each awaited commit with its lane; ids are distinct.
    reserved: Vec<(String, usize)>,
    /// Ghost map mirroring `reserved`.
    map: Ghost<Map<Seq<char>, int>>,
    /// For each opened lane, whether it is free for reuse.
    lane_free: Vec<bool>,
    /// For each opened lane, whether an awaited commit keeps it.
    lane_used: Vec<bool>,
}

impl LaneState {
    /// What the state stands for.
    pub closed spec fn model(&self) -> LaneModel {
        LaneModel {
            reserved: self.map@,
            free: Set::new(|l: int| 0 <= l < self.lane_free@.len() && self.lane_free@[l]),
            opened: self.lane_free@.len() as int,
        }
    }

    /// The vectors agree with the model.
    pub closed spec fn inv(&self) -> bool {
        &&& self.lane_used@.len() == self.lane_free@.len()
        &&& forall|i: int|
            0 <= i < self.reserved@.len() ==> #[trigger] self.map@.contains_key(
                self.reserved@[i].0@,
            ) && self.map@[self.reserved@[i].0@] == self.reserved@[i].1 as int
        &&& forall|k: Seq<char>|
            #[trigger] self.map@.contains_key(k) ==> exists|i: int|
                0 <= i < self.reserved@.len() && #[trigger] self.reserved@[i].0@ == k
        &&& forall|i: int, j: int|
            0 <= i < self.reserved@.len() && 0 <= j < self.reserved@.len() && i != j
                ==> #[trigger] self.reserved@[i].0@ != #[trigger] self.reserved@[j].0@
        &&& forall|l: int|
            0 <= l < self.lane_used@.len() ==> #[trigger] self.lane_used@[l] == lane_in_use(
                self.map@,
                l,
            )
        &&& forall|l: int| lane_in_use(self.map@, l) ==> 0 <= l < self.lane_used@.len()
    }

    /// No lanes yet.
    pub fn new() -> (st: Self)
        ensures
            st.inv(),
            st.model() == empty_model(),
    {
        let st = LaneState {
            reserved: Vec::new(),
            map: Ghost(Map::empty()),
            lane_free: Vec::new(),
            lane_used: Vec::new(),
        };
        proof {
            reveal(lane_in_use);
            assert(st.model().free =~= Set::<int>::empty());
        }
        st
    }

    /// The position of `id` among the awaited commits.
    fn find(&self, id: &String) -> (r: Option<usize>)
        requires
            self.inv(),
        ensures
            r matches Some(i) ==> i < self.reserved@.len() && self.reserved@[i as int].0@ == id@
                && self.map@.contains_key(id@) && self.map@[id@] == self.reserved@[i as int].1 as int,
            r is None ==> !self.map@.contains_key(id@),
    {
        let mut i: usize = 0;
        while i < self.reserved.len()
            invariant
                self.inv(),
                0 <= i <= self.reserved@.len(),
                forall|j: int| 0 <= j < i ==> self.reserved@[j].0@ != id@,
            decreases self.reserved@.len() - i,
        {
            if self.reserved[i].0 == *id {
                assert(self.map@.contains_key(self.reserved@[i as int].0@));
                return Some(i);
            }
            i = i + 1;
        }
        proof {
            if self.map@.contains_key(id@) {
                let j = choose|j: int|
                    0 <= j < self.reserved@.len() && #[trigger] self.reserved@[j].0@ == id@;
                assert(self.reserved@[j].0@ != id@);
            }
        }
        None
    }

    /// The lowest free lane, or a newly opened one.
    fn open(&mut self) -> (l: usize)
        requires
            old(self).inv(),
        ensures
            final(self).inv(),
            final(self).map@ == old(self).map@,
            final(self).reserved@ == old(self).reserved@,
            final(self).model() == open_lane(old(self).model()).1,
            l as int == open_lane(old(self).model()).0,
            l < final(self).lane_free@.len(),
    {
        let ghost m = self.model();
        let mut i: usize = 0;
        while i < self.lane_free.len()
            invariant
                0 <= i <= self.lane_free@.len(),
                forall|j: int| 0 <= j < i ==> !self.lane_free@[j],
                self.inv(),
                old(self).inv(),
                self.lane_free@ == old(self).lane_free@,
                self.lane_used@ == old(self).lane_used@,
                self.map@ == old(self).map@,
                self.reserved@ == old(self).reserved@,
                m == old(self).model(),
            decreases self.lane_free@.len() - i,
        {
            if self.lane_free[i] {
                proof {
                    assert(m.free.contains(i as int));
                    assert(has_free_lane(m));
                    assert forall|y: int| m.free.contains(y) implies i <= y by {
                        if y < i {
                            assert(!self.lane_free@[y]);
                        }
                    }
                    lemma_least_is(m.free, i as int);
                }
                self.lane_free.set(i, false);
                proof {
                    assert(self.model().free =~= m.free.remove(i as int));
                    assert(self.reserved@ == old(self).reserved@);
                    assert(self.lane_used@ == old(self).lane_used@);
                    assert(self.map@ == old(self).map@);
                    assert(self.lane_used@.len() == self.lane_free@.len());
                }
                return i;
            }
            i = i + 1;
        }
        proof {
            assert(!has_free_lane(m)) by {
                if has_free_lane(m) {
                    let x = choose|x: int| m.free.contains(x);
                    assert(!self.lane_free@[x]);
                }
            }
        }
        let l = self.lane_free.len();
        self.lane_free.push(false);
        self.lane_used.push(false);
        proof {
            assert(self.model().free =~= m.free);
            assert(!lane_in_use(self.map@, l as int));
            assert forall|q: int| 0 <= q < self.lane_used@.len() implies #[trigger] self.lane_used@[q]
                == lane_in_use(self.map@, q) by {
                if q < l {
                    assert(self.lane_used@[q] == old(self).lane_used@[q]);
                }
            }
            assert(self.reserved@ == old(self).reserved@);
            assert(self.map@ == old(self).map@);
        }
        l
    }

    /// The lane of commit `id`: the one kept for it, or else a new one.
    fn take_lane(&mut self, id: &String) -> (l: usize)
        requires
            old(self).inv(),
            lanes_wf(old(self).model()),
        ensures
            final(self).inv(),
            final(self).model() == lane_for_commit(old(self).model(), id@).1,
            l as int == lane_for_commit(old(self).model(), id@).0,
            l < final(self).lane_free@.len(),
    {
        let ghost m = self.model();
        proof {
            lemma_lane_for_commit(m, id@);
        }
        match self.find(id) {
            Some(i) => {
                let l = self.reserved[i].1;
                let ghost old_res = self.reserved@;
                let ghost old_map = self.map@;
                let _ = self.reserved.remove(i);
                self.map = Ghost(self.map@.remove(id@));
                proof {
                    lemma_in_use_intro(old_map, id@);
                }
                self.lane_used.set(l, false);
                proof {
                    let res = self.reserved@;
                    assert forall|j: int| 0 <= j < res.len() implies #[trigger] self.map@.contains_key(
                        res[j].0@,
                    ) && self.map@[res[j].0@] == res[j].1 as int by {
                        let oj = if j < i { j } else { j + 1 };
                        assert(res[j] == old_res[oj]);
                        assert(old_res[oj].0@ != old_res[i as int].0@);
                        assert(old_map.contains_key(old_res[oj].0@));
                    }
                    assert forall|k: Seq<char>| #[trigger] self.map@.contains_key(k) implies exists|j: int|
                        0 <= j < res.len() && #[trigger] res[j].0@ == k by {
                        let oj = choose|oj: int| 0 <= oj < old_res.len() && #[trigger] old_res[oj].0@ == k;
                        assert(oj != i);
                        let j = if oj < i { oj } else { oj - 1 };
                        assert(res[j] == old_res[oj]);
                    }
                    assert forall|a: int, b: int|
                        0 <= a < res.len() && 0 <= b < res.len() && a != b implies #[trigger] res[a].0@
                        != #[trigger] res[b].0@ by {
                        let oa = if a < i { a } else { a + 1 };
                        let ob = if b < i { b } else { b + 1 };
                        assert(res[a] == old_res[oa]);
                        assert(res[b] == old_res[ob]);
                    }
                    assert forall|q: int| 0 <= q < self.lane_used@.len() implies #[trigger] self.lane_used@[q]
                        == lane_in_use(self.map@, q) by {
                        if q != l {
                            assert(self.lane_used@[q] == old(self).lane_used@[q]);
                        }
                    }
                    assert(self.model().free == m.free);
                    assert(self.model() == lane_for_commit(m, id@).1);
                }
                l
            },
            None => self.open(),
        }
    }

    /// The lanes kept by awaited commits other than `lane`, in increasing
    /// order.
    fn passing_lanes(&self, lane: usize) -> (p: Vec<usize>)
        requires
            self.inv(),
        ensures
            strictly_increasing(p@),
            lane_set(p@) == used_lanes(self.map@).remove(lane as int),
            forall|i: int| 0 <= i < p@.len() ==> #[trigger] p@[i] < self.lane_used@.len(),
    {
        let mut p: Vec<usize> = Vec::new();
        let mut l: usize = 0;
        while l < self.lane_used.len()
            invariant
                self.inv(),
                0 <= l <= self.lane_used@.len(),
                strictly_increasing(p@),
                forall|i: int| 0 <= i < p@.len() ==> #[trigger] p@[i] < l,
                forall|q: int|
                    0 <= q < l ==> (lane_set(p@).contains(q) <==> (lane_in_use(self.map@, q) && q
                        != lane)),
                forall|q: int| lane_set(p@).contains(q) ==> 0 <= q < l,
            decreases self.lane_used@.len() - l,
        {
            let ghost before = p@;
            proof {
                assert(self.lane_used@[l as int] == lane_in_use(self.map@, l as int));
                assert(!lane_set(before).contains(l as int));
                assert forall|q: int| 0 <= q < l implies #[trigger] lane_set(before).contains(q)
                    == (lane_in_use(self.map@, q) && q != lane) by {
                    assert(lane_set(p@).contains(q) == (lane_in_use(self.map@, q) && q != lane));
                }
            }
            if self.lane_used[l] && l != lane {
                p.push(l);
                proof {
                    assert forall|q: int| lane_set(p@).contains(q) <==> (lane_set(before).contains(q)
                        || q == l) by {
                        if lane_set(p@).contains(q) {
                            let i = choose|i: int| 0 <= i < p@.len() && p@[i] as int == q;
                            if i < before.len() {
                                assert(p@[i] == before[i]);
                            }
                        }
                        if lane_set(before).contains(q) {
                            let i = choose|i: int| 0 <= i < before.len() && before[i] as int == q;
                            assert(p@[i] == before[i]);
                        }
                        if q == l {
                            assert(p@[before.len() as int] == l);
                        }
                    }
                }
            }
            proof {
                assert forall|q: int|
                    0 <= q < l + 1 implies (lane_set(p@).contains(q) <==> (lane_in_use(self.map@, q)
                    && q != lane)) by {
                    if q < l {
                        assert(lane_set(before).contains(q) <==> (lane_in_use(self.map@, q) && q
                            != lane));
                    }
                }
            }
            l = l + 1;
        }
        proof {
            assert forall|q: int| lane_set(p@).contains(q) <==> used_lanes(self.map@).remove(
                lane as int,
            ).contains(q) by {
                if lane_in_use(self.map@, q) {
                    assert(0 <= q < self.lane_used@.len());
                }
            }
            assert(lane_set(p@) =~= used_lanes(self.map@).remove(lane as int));
        }
        p
    }

    /// Reserves lanes for the parents of a commit drawn in `lane`.
    #[verifier::rlimit(60)]
    fn reserve_parents(&mut self, lane: usize, parents: &Vec<String>) -> (pl: Vec<usize>)
        requires
            old(self).inv(),
            held(old(self).model(), lane as int),
            !lane_in_use(old(self).map@, lane as int),
        ensures
            final(self).inv(),
            final(self).model() == assign_parents(old(self).model(), lane as int, ids_of(parents@)).0,
            lanes_of(pl@) == assign_parents(old(self).model(), lane as int, ids_of(parents@)).1,
    {
        let ghost m1 = self.model();
        let ghost ids = ids_of(parents@);
        let mut pl: Vec<usize> = Vec::new();
        let mut i: usize = 0;
        assert(ids.take(0) =~= Seq::<Seq<char>>::empty());
        while i < parents.len()
            invariant
                self.inv(),
                0 <= i <= parents@.len(),
                ids == ids_of(parents@),
                held(m1, lane as int),
                !lane_in_use(m1.reserved, lane as int),
                self.model() == assign_parents(m1, lane as int, ids.take(i as int)).0,
                lanes_of(pl@) == assign_parents(m1, lane as int, ids.take(i as int)).1,
            decreases parents@.len() - i,
        {
            proof {
                lemma_assign_parents(m1, lane as int, ids.take(i as int));
                assert(ids.take(i + 1).drop_last() == ids.take(i as int));
                assert(ids.take(i + 1).last() == parents@[i as int]@);
            }
            let pid = &parents[i];
            let ghost before = pl@;
            match self.find(pid) {
                Some(j) => {
                    let l = self.reserved[j].1;
                    pl.push(l);
                    proof {
                        assert(lanes_of(pl@) =~= lanes_of(before).push(l as int));
                    }
                },
                None => {
                    let l = if i == 0 {
                        proof {
                            assert(ids.take(i as int).len() == 0);
                            assert(self.model() == m1);
                        }
                        lane
                    } else {
                        self.open()
                    };
                    let ghost mo = self.model();
                    let ghost old_res = self.reserved@;
                    let ghost old_map = self.map@;
                    proof {
                        if i == 0 {
                            lemma_reserve_first(m1, lane as int, pid@);
                        } else {
                            lemma_reserve_opened(
                                assign_parents(m1, lane as int, ids.take(i as int)).0,
                                lane as int,
                                pid@,
                            );
                        }
                        lemma_in_use_insert(old_map, pid@, l as int);
                    }
                    self.reserved.push((pid.clone(), l));
                    self.map = Ghost(self.map@.insert(pid@, l as int));
                    self.lane_used.set(l, true);
                    pl.push(l);
                    proof {
                        let res = self.reserved@;
                        assert(res.len() == old_res.len() + 1);
                        assert forall|j: int| 0 <= j < res.len() implies #[trigger] self.map@.contains_key(
                            res[j].0@,
                        ) && self.map@[res[j].0@] == res[j].1 as int by {
                            if j < old_res.len() {
                                assert(res[j] == old_res[j]);
                                assert(old_map.contains_key(old_res[j].0@));
                            }
                        }
                        assert forall|k: Seq<char>| #[trigger] self.map@.contains_key(k) implies exists|j: int|
                            0 <= j < res.len() && #[trigger] res[j].0@ == k by {
                            if k == pid@ {
                                assert(res[old_res.len() as int].0@ == k);
                            } else {
                                let oj = choose|oj: int|
                                    0 <= oj < old_res.len() && #[trigger] old_res[oj].0@ == k;
                                assert(res[oj] == old_res[oj]);
                            }
                        }
                        assert forall|a: int, b: int|
                            0 <= a < res.len() && 0 <= b < res.len() && a != b implies #[trigger] res[a].0@
                            != #[trigger] res[b].0@ by {
                            if a < old_res.len() {
                                assert(res[a] == old_res[a]);
                                assert(old_map.contains_key(old_res[a].0@));
                            }
                            if b < old_res.len() {
                                assert(res[b] == old_res[b]);
                                assert(old_map.contains_key(old_res[b].0@));
                            }
                        }
                        assert forall|q: int| 0 <= q < self.lane_used@.len() implies #[trigger] self.lane_used@[q]
                            == lane_in_use(self.map@, q) by {}
                        assert(lanes_of(pl@) =~= lanes_of(before).push(l as int));
                        assert(self.model().free == mo.free);
                    }
                },
            }
            i = i + 1;
        }
        assert(ids.take(parents@.len() as int) == ids);
        pl
    }

    /// Frees lane `l` when no awaited commit keeps it.
    fn free_if_unused(&mut self, l: usize)
        requires
            old(self).inv(),
            l < old(self).lane_free@.len(),
        ensures
            final(self).inv(),
            final(self).map@ == old(self).map@,
            final(self).reserved@ == old(self).reserved@,
            final(self).lane_used@ == old(self).lane_used@,
            final(self).model() == (LaneModel {
                reserved: old(self).model().reserved,
                free: if lane_in_use(old(self).map@, l as int) {
                    old(self).model().free
                } else {
                    old(self).model().free.insert(l as int)
                },
                opened: old(self).model().opened,
            }),
    {
        let ghost m = self.model();
        if !self.lane_used[l] && !self.lane_free[l] {
            self.lane_free.set(l, true);
        }
        proof {
            assert(self.lane_used@[l as int] == lane_in_use(self.map@, l as int));
            assert(self.reserved@ == old(self).reserved@);
            assert(self.lane_used@ == old(self).lane_used@);
            assert(self.map@ == old(self).map@);
            if lane_in_use(old(self).map@, l as int) {
                assert(self.model().free =~= m.free);
            } else {
                assert(self.model().free =~= m.free.insert(l as int));
            }
        }
    }

    /// Frees every lane of `pass` and `lane` that no awaited commit keeps
    /// any more.
    fn release(&mut self, pass: &Vec<usize>, lane: usize)
        requires
            old(self).inv(),
            lane < old(self).lane_free@.len(),
            forall|i: int| 0 <= i < pass@.len() ==> #[trigger] pass@[i] < old(self).lane_free@.len(),
        ensures
            final(self).inv(),
            final(self).model() == (LaneModel {
                reserved: old(self).model().reserved,
                free: old(self).model().free.union(
                    lane_set(pass@).insert(lane as int).filter(
                        |l: int| !lane_in_use(old(self).model().reserved, l),
                    ),
                ),
                opened: old(self).model().opened,
            }),
    {
        let ghost m = self.model();
        let mut k: usize = 0;
        while k < pass.len()
            invariant
                self.inv(),
                0 <= k <= pass@.len(),
                lane < self.lane_free@.len(),
                forall|i: int| 0 <= i < pass@.len() ==> #[trigger] pass@[i] < self.lane_free@.len(),
                self.map@ == m.reserved,
                self.lane_free@.len() == m.opened,
                self.model().reserved == m.reserved,
                self.model().opened == m.opened,
                self.model().free == m.free.union(
                    lane_set(pass@.take(k as int)).filter(|l: int| !lane_in_use(m.reserved, l)),
                ),
            decreases pass@.len() - k,
        {
            let ghost f0 = self.model().free;
            self.free_if_unused(pass[k]);
            proof {
                let t0 = pass@.take(k as int);
                let t1 = pass@.take(k + 1);
                assert forall|q: int| lane_set(t1).contains(q) <==> (lane_set(t0).contains(q) || q
                    == pass@[k as int]) by {
                    if lane_set(t1).contains(q) {
                        let i = choose|i: int| 0 <= i < t1.len() && t1[i] as int == q;
                        if i < k {
                            assert(t0[i] == t1[i]);
                        }
                    }
                    if lane_set(t0).contains(q) {
                        let i = choose|i: int| 0 <= i < t0.len() && t0[i] as int == q;
                        assert(t0[i] == t1[i]);
                    }
                    if q == pass@[k as int] {
                        assert(t1[k as int] as int == q);
                    }
                }
                assert(self.model().free =~= m.free.union(
                    lane_set(t1).filter(|l: int| !lane_in_use(m.reserved, l)),
                ));
            }
            k = k + 1;
        }
        self.free_if_unused(lane);
        proof {
            assert(pass@.take(pass@.len() as int) == pass@);
            let want = m.free.union(
                lane_set(pass@).insert(lane as int).filter(|l: int| !lane_in_use(m.reserved, l)),
            );
            assert(self.model().free =~= want);
        }
    }

    /// Draws the next commit of the walk.
    pub fn place(&mut self, id: &String, parents: &Vec<String>) -> (p: Placement)
        requires
            old(self).inv(),
            lanes_wf(old(self).model()),
        ensures
            final(self).inv(),
            lanes_wf(final(self).model()),
            final(self).model() == lane_step(old(self).model(), id@, ids_of(parents@)).0,
            p.matches(lane_step(old(self).model(), id@, ids_of(parents@)).1),
    {
        let ghost m = self.model();
        proof {
            lemma_lane_for_commit(m, id@);
            law_lane_step(m, id@, ids_of(parents@));
        }
        let lane = self.take_lane(id);
        let ghost m1 = self.model();
        let pass = self.passing_lanes(lane);
        proof {
            lemma_assign_parents(m1, lane as int, ids_of(parents@));
        }
        let parent_lanes = self.reserve_parents(lane, parents);
        let ghost m2 = self.model();
        self.release(&pass, lane);
        proof {
            let alive = used_lanes(m1.reserved).remove(lane as int).insert(lane as int);
            assert(lane_set(pass@).insert(lane as int) == alive);
        }
        Placement { lane, passthrough: pass, parent_lanes }
    }
}


} // verus!
