//! A set of locations with tests of membership in constant time.
//!
//! The set is a hash set of integers: a location is kept under the number
//! that its tree and its offset make together.

use crate::point::Location;
use std::collections::HashSet;
use vstd::prelude::*;

verus! {

broadcast use vstd::std_specs::hash::group_hash_axioms;

/// The number that stands for a location: its tree in the upper 32 bits
/// above its offset in the lower 64.
pub open spec fn key_of(loc: Location) -> u128 {
    (loc.0 as u128 * 0x1_0000_0000_0000_0000 + loc.1 as u128) as u128
}

/// Two locations with one key are the same location.
pub proof fn key_decides(a: Location, b: Location)
    ensures
        key_of(a) == key_of(b) ==> a == b,
{
}

/// The locations that a sequence holds.
pub open spec fn members(locations: Seq<Location>) -> Set<Location> {
    Set::new(|loc: Location| locations.contains(loc))
}

/// A sequence with one more location holds that location and what it held.
pub proof fn members_push(locations: Seq<Location>, loc: Location)
    ensures
        members(locations.push(loc)) == members(locations).insert(loc),
{
    let more = locations.push(loc);
    assert forall|a: Location| members(more).contains(a) <==> members(locations).insert(
        loc,
    ).contains(a) by {
        if more.contains(a) {
            let i = choose|i: int| 0 <= i < more.len() && more[i] == a;
            if i < locations.len() {
                assert(locations[i] == a);
            }
        }
        if locations.contains(a) {
            let i = choose|i: int| 0 <= i < locations.len() && locations[i] == a;
            assert(more[i] == a);
        }
        if a == loc {
            assert(more[locations.len() as int] == a);
        }
    }
    assert(members(more) =~= members(locations).insert(loc));
}

/// Two sequences one after the other hold what either holds.
pub proof fn members_concat(first: Seq<Location>, second: Seq<Location>)
    ensures
        members(first + second) == members(first).union(members(second)),
    decreases second.len(),
{
    if second.len() == 0 {
        assert(first + second =~= first);
        assert(members(first).union(members(second)) =~= members(first));
    } else {
        let front = second.drop_last();
        members_concat(first, front);
        members_push(first + front, second.last());
        members_push(front, second.last());
        assert((first + front).push(second.last()) =~= first + second);
        assert(front.push(second.last()) =~= second);
        assert(members(first + second) =~= members(first).union(members(second)));
    }
}

/// A set of locations.
pub struct LocationSet {
    keys: HashSet<u128>,
}

impl View for LocationSet {
    type V = Set<Location>;

    closed spec fn view(&self) -> Set<Location> {
        Set::new(|loc: Location| self.keys@.contains(key_of(loc)))
    }
}

/// The key of a location.
fn key(loc: Location) -> (k: u128)
    ensures
        k == key_of(loc),
{
    (loc.0 as u128) * 0x1_0000_0000_0000_0000 + (loc.1 as u128)
}

impl LocationSet {
    /// The empty set.
    pub fn new() -> (s: Self)
        ensures
            s@ == Set::<Location>::empty(),
    {
        let s = LocationSet { keys: HashSet::new() };
        assert(s@ =~= Set::<Location>::empty());
        s
    }

    /// Puts `loc` into the set.
    pub fn insert(&mut self, loc: Location)
        ensures
            final(self)@ == old(self)@.insert(loc),
    {
        let k = key(loc);
        self.keys.insert(k);
        proof {
            assert forall|a: Location| self@.contains(a) <==> old(self)@.insert(loc).contains(
                a,
            ) by {
                key_decides(a, loc);
            }
            assert(self@ =~= old(self)@.insert(loc));
        }
    }

    /// Whether `loc` is in the set.
    pub fn contains(&self, loc: Location) -> (b: bool)
        ensures
            b == self@.contains(loc),
    {
        let k = key(loc);
        self.keys.contains(&k)
    }

    /// Takes every location out of the set.
    pub fn clear(&mut self)
        ensures
            final(self)@ == Set::<Location>::empty(),
    {
        self.keys.clear();
        assert(self@ =~= Set::<Location>::empty());
    }

    /// The set of the locations in `locations`.
    pub fn from_vec(locations: &Vec<Location>) -> (s: Self)
        ensures
            s@ == members(locations@),
    {
        let mut s = LocationSet::new();
        let mut k: usize = 0;
        assert(s@ =~= members(locations@.take(0)));
        while k < locations.len()
            invariant
                k <= locations@.len(),
                s@ == members(locations@.take(k as int)),
            decreases locations@.len() - k,
        {
            s.insert(locations[k]);
            proof {
                members_push(locations@.take(k as int), locations@[k as int]);
                assert(locations@.take(k as int).push(locations@[k as int]) =~= locations@.take(
                    k + 1,
                ));
            }
            k += 1;
        }
        assert(locations@.take(k as int) =~= locations@);
        s
    }
}

} // verus!
