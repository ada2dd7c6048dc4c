//! One limiter per key.

use crate::binary64::Binary64;
use crate::limiter::{Limiter, LimiterState};
use crate::options::Algorithm;
use vstd::hash_map::StringHashMap;
use vstd::prelude::*;
use vstd::string::*;

verus! {

broadcast use vstd::hash_map::group_hash_map_axioms;

/// One limiter per key. Each is made when its key first comes up.
pub struct Buckets {
    places: StringHashMap<usize>,
    limiters: Vec<Limiter>,
}

impl View for Buckets {
    type V = Map<Seq<char>, LimiterState>;

    closed spec fn view(&self) -> Map<Seq<char>, LimiterState> {
        self.places@.map_values(|place: usize| self.limiters@[place as int]@)
    }
}

/// The limiter of a key, fresh where the key has not come up.
pub open spec fn limiter_for(
    buckets: Map<Seq<char>, LimiterState>,
    key: Seq<char>,
    algorithm: Algorithm,
    rate: Binary64,
    burst: Binary64,
) -> LimiterState {
    if buckets.contains_key(key) {
        buckets[key]
    } else {
        LimiterState::fresh(algorithm, rate, burst)
    }
}

impl Buckets {
    /// Every key has a limiter of its own.
    pub closed spec fn well_formed(self) -> bool {
        &&& forall|key: Seq<char>|
            #[trigger] self.places@.contains_key(key) ==> self.places@[key]
                < self.limiters@.len()
        &&& forall|a: Seq<char>, b: Seq<char>|
            #[trigger] self.places@.contains_key(a) && #[trigger] self.places@.contains_key(b) && a
                != b ==> self.places@[a] != self.places@[b]
        &&& forall|place: int|
            0 <= place < self.limiters@.len() ==> (#[trigger] self.limiters@[place]).well_formed()
    }

    /// No keys.
    pub fn new() -> (buckets: Buckets)
        ensures
            buckets.well_formed(),
            buckets@ == Map::<Seq<char>, LimiterState>::empty(),
    {
        let buckets = Buckets { places: StringHashMap::new(), limiters: Vec::new() };
        assert(buckets@ =~= Map::<Seq<char>, LimiterState>::empty());
        buckets
    }

    /// How many keys have come up.
    pub fn len(&self) -> (n: usize)
        ensures
            n == self@.len(),
    {
        assert(self@.dom() =~= self.places@.dom());
        self.places.len()
    }

    /// Decides a request of `key` at the time `now`, with the key's own limiter.
    pub fn allow(
        &mut self,
        key: &str,
        algorithm: Algorithm,
        rate: Binary64,
        burst: Binary64,
        now: Binary64,
    ) -> (allowed: bool)
        requires
            old(self).well_formed(),
        ensures
            final(self).well_formed(),
            allowed == limiter_for(old(self)@, key@, algorithm, rate, burst).allows(now),
            final(self)@ == old(self)@.insert(
                key@,
                limiter_for(old(self)@, key@, algorithm, rate, burst).after(now),
            ),
    {
        let found: Option<usize> = match self.places.get(key) {
            Some(place) => Some(*place),
            None => None,
        };
        match found {
            Some(place) => {
                let allowed = self.limiters[place].allow(now);
                proof {
                    assert forall|other: Seq<char>| #[trigger]
                        self.places@.contains_key(other) && other != key@ implies self@[other]
                        == old(self)@[other] by {
                        assert(old(self).places@.contains_key(other));
                        assert(old(self).places@.contains_key(key@));
                    }
                    assert(self@ =~= old(self)@.insert(
                        key@,
                        old(self)@[key@].after(now),
                    ));
                }
                allowed
            },
            None => {
                let mut limiter = Limiter::new(algorithm, rate, burst);
                let allowed = limiter.allow(now);
                let place = self.limiters.len();
                self.limiters.push(limiter);
                self.places.insert(key.to_string(), place);
                proof {
                    assert forall|other: Seq<char>| #[trigger]
                        old(self).places@.contains_key(other) implies self@[other]
                        == old(self)@[other] by {
                        assert(old(self).places@[other] < old(self).limiters@.len());
                    }
                    assert(self@ =~= old(self)@.insert(
                        key@,
                        LimiterState::fresh(algorithm, rate, burst).after(now),
                    ));
                }
                allowed
            },
        }
    }
}

} // verus!
