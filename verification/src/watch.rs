//! Noticing that the repository changed: a reference file that is new or
//! was modified since the last look.
use vstd::prelude::*;

verus! {

/// A file with its modification time.
pub struct Stamp {
    pub path: String,
    /// Whole seconds since the epoch.
    pub secs: u64,
    /// Nanoseconds within the second.
    pub nanos: u32,
}

pub open spec fn stamp_view(s: Stamp) -> (Seq<char>, u64, u32) {
    (s.path@, s.secs, s.nanos)
}

pub open spec fn stamps_view(v: Seq<Stamp>) -> Seq<(Seq<char>, u64, u32)> {
    v.map_values(|s: Stamp| stamp_view(s))
}

/// Some reference found now was not seen before with the same time.
pub open spec fn refs_changed_spec(
    previous: Seq<(Seq<char>, u64, u32)>,
    found: Seq<(Seq<char>, u64, u32)>,
) -> bool {
    exists|i: int| 0 <= i < found.len() && !previous.contains(#[trigger] found[i])
}

fn seen(previous: &Vec<Stamp>, s: &Stamp) -> (b: bool)
    ensures
        b == stamps_view(previous@).contains(stamp_view(*s)),
{
    let mut i: usize = 0;
    while i < previous.len()
        invariant
            0 <= i <= previous@.len(),
            forall|j: int| 0 <= j < i ==> stamp_view(previous@[j]) != stamp_view(*s),
        decreases previous@.len() - i,
    {
        if previous[i].path == s.path && previous[i].secs == s.secs && previous[i].nanos == s.nanos {
            assert(stamps_view(previous@)[i as int] == stamp_view(*s));
            return true;
        }
        i = i + 1;
    }
    proof {
        if stamps_view(previous@).contains(stamp_view(*s)) {
            let j = choose|j: int|
                0 <= j < stamps_view(previous@).len() && stamps_view(previous@)[j] == stamp_view(*s);
            assert(stamp_view(previous@[j]) == stamp_view(*s));
        }
    }
    false
}

/// Whether a reference is new or has a new modification time: some stamp
/// found now is not among the previous ones.
pub fn refs_changed(previous: &Vec<Stamp>, found: &Vec<Stamp>) -> (b: bool)
    ensures
        b == refs_changed_spec(stamps_view(previous@), stamps_view(found@)),
{
    let mut i: usize = 0;
    while i < found.len()
        invariant
            0 <= i <= found@.len(),
            forall|j: int|
                0 <= j < i ==> stamps_view(previous@).contains(#[trigger] stamps_view(found@)[j]),
        decreases found@.len() - i,
    {
        if !seen(previous, &found[i]) {
            assert(!stamps_view(previous@).contains(stamps_view(found@)[i as int]));
            return true;
        }
        assert(stamps_view(found@)[i as int] == stamp_view(found@[i as int]));
        i = i + 1;
    }
    false
}

} // verus!
