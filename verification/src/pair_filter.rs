//! Filters that say which pairs of objects the broad phase may report.

use crate::collision_object::CollisionObject;
use vstd::prelude::*;

verus! {

/// Says whether a pair of objects may interact. The answer depends on the
/// filter and the two objects alone.
pub trait BroadPhasePairFilter<S, T> {
    /// Whether the two objects may interact.
    spec fn pair_valid(&self, co1: CollisionObject<S, T>, co2: CollisionObject<S, T>) -> bool;

    /// Whether the two objects may interact.
    fn is_pair_valid(&self, co1: &CollisionObject<S, T>, co2: &CollisionObject<S, T>) -> (r: bool)
        ensures
            r == self.pair_valid(*co1, *co2),
    ;
}

/// The filter by collision groups: two objects may interact where their
/// groups are compatible, and an object may interact with itself where its
/// groups say so.
#[derive(Clone, Copy, Debug, PartialEq, Eq, Structural)]
pub struct CollisionGroupsPairFilter;

impl CollisionGroupsPairFilter {
    /// The filter.
    pub fn new() -> (f: CollisionGroupsPairFilter) {
        CollisionGroupsPairFilter
    }
}

/// What the filter by collision groups says of two objects.
pub open spec fn groups_valid<S, T>(co1: CollisionObject<S, T>, co2: CollisionObject<S, T>) -> bool {
    if co1.handle == co2.handle {
        co1.collision_groups.self_compatible()
    } else {
        co1.collision_groups.compatible(co2.collision_groups)
    }
}

impl<S, T> BroadPhasePairFilter<S, T> for CollisionGroupsPairFilter {
    open spec fn pair_valid(&self, co1: CollisionObject<S, T>, co2: CollisionObject<S, T>) -> bool {
        groups_valid(co1, co2)
    }

    fn is_pair_valid(&self, co1: &CollisionObject<S, T>, co2: &CollisionObject<S, T>) -> (r: bool) {
        let r = if co1.handle() == co2.handle() {
            co1.collision_groups().can_interact_with_self()
        } else {
            co1.collision_groups().can_interact_with_groups(co2.collision_groups())
        };
        assert(self.pair_valid(*co1, *co2) == groups_valid(*co1, *co2));
        r
    }
}

/// Whether every filter accepts the pair.
pub open spec fn all_valid<S, T, F: BroadPhasePairFilter<S, T>>(
    filters: Seq<(String, F)>,
    co1: CollisionObject<S, T>,
    co2: CollisionObject<S, T>,
) -> bool {
    forall|i: int| 0 <= i < filters.len() ==> (#[trigger] filters[i]).1.pair_valid(co1, co2)
}

/// No two filters have the same name.
pub open spec fn names_unique<F>(filters: Seq<(String, F)>) -> bool {
    forall|i: int, j: int| 0 <= i < j < filters.len() ==> filters[i].0@ != filters[j].0@
}

/// The place of the filter called `name`, or the number of filters where
/// there is none.
pub open spec fn place_of<F>(filters: Seq<(String, F)>, name: Seq<char>) -> int
    decreases filters.len(),
{
    if filters.len() == 0 {
        0
    } else if filters[0].0@ == name {
        0
    } else {
        1 + place_of(filters.drop_first(), name)
    }
}

/// `place_of` is a place of the sequence or its length, the filter there has
/// the name, and no filter before it has.
pub proof fn lemma_place_of<F>(filters: Seq<(String, F)>, name: Seq<char>)
    ensures
        0 <= place_of(filters, name) <= filters.len(),
        place_of(filters, name) < filters.len() ==> filters[place_of(filters, name)].0@ == name,
        forall|i: int| 0 <= i < place_of(filters, name) ==> (#[trigger] filters[i]).0@ != name,
    decreases filters.len(),
{
    if filters.len() > 0 && filters[0].0@ != name {
        let rest = filters.drop_first();
        lemma_place_of(rest, name);
        assert forall|i: int| 0 <= i < place_of(filters, name) implies (#[trigger] filters[i]).0@
            != name by {
            if i > 0 {
                assert(filters[i] == rest[i - 1]);
            }
        }
        if place_of(filters, name) < filters.len() {
            assert(filters[place_of(filters, name)] == rest[place_of(rest, name)]);
        }
    }
}

/// The filters that the user registered, each under its name.
pub struct BroadPhasePairFilters<F> {
    filters: Vec<(String, F)>,
}

impl<F> View for BroadPhasePairFilters<F> {
    type V = Seq<(String, F)>;

    closed spec fn view(&self) -> Seq<(String, F)> {
        self.filters@
    }
}

impl<F> BroadPhasePairFilters<F> {
    /// No filter.
    pub fn new() -> (filters: Self)
        ensures
            filters@.len() == 0,
            names_unique(filters@),
    {
        BroadPhasePairFilters { filters: Vec::new() }
    }

    /// The number of filters.
    pub fn len(&self) -> (n: usize)
        ensures
            n == self@.len(),
    {
        self.filters.len()
    }

    /// The place of the filter called `name`, or the number of filters where
    /// there is none.
    fn find(&self, name: &String) -> (i: usize)
        ensures
            i == place_of(self@, name@),
    {
        let mut i: usize = 0;
        assert(self.filters@.skip(0) =~= self.filters@);
        while i < self.filters.len()
            invariant
                i <= self.filters@.len(),
                place_of(self.filters@, name@) == i + place_of(
                    self.filters@.skip(i as int),
                    name@,
                ),
            decreases self.filters@.len() - i,
        {
            proof {
                let rest = self.filters@.skip(i as int);
                assert(rest[0] == self.filters@[i as int]);
                assert(rest.drop_first() =~= self.filters@.skip(i + 1));
            }
            if self.filters[i].0 == *name {
                return i;
            }
            i += 1;
        }
        i
    }

    /// Registers a filter under a name. It takes the place of the first
    /// filter that has the name, or stands after all others where none has.
    pub fn register_collision_filter(&mut self, name: &str, filter: F)
        requires
            names_unique(old(self)@),
        ensures
            names_unique(final(self)@),
            ({
                let i = place_of(old(self)@, name@);
                if i < old(self)@.len() {
                    final(self)@.len() == old(self)@.len() && final(self)@[i].0@ == name@
                        && final(self)@[i].1 == filter && forall|j: int|
                        0 <= j < old(self)@.len() && j != i ==> final(self)@[j] == old(self)@[j]
                } else {
                    final(self)@.len() == old(self)@.len() + 1 && final(self)@.drop_last() == old(self)@ && final(self)@.last().0@ == name@ && final(self)@.last().1 == filter
                }
            }),
    {
        let owned = name.to_owned();
        let i = self.find(&owned);
        proof {
            lemma_place_of(old(self)@, name@);
        }
        if i < self.filters.len() {
            self.filters.set(i, (owned, filter));
            proof {
                assert forall|a: int, b: int| 0 <= a < b < self@.len() implies self@[a].0@
                    != self@[b].0@ by {
                    assert(old(self)@[a].0@ != old(self)@[b].0@);
                }
            }
        } else {
            self.filters.push((owned, filter));
            proof {
                assert(self@.drop_last() =~= old(self)@);
                assert forall|a: int, b: int| 0 <= a < b < self@.len() implies self@[a].0@
                    != self@[b].0@ by {
                    if b < old(self)@.len() {
                        assert(old(self)@[a].0@ != old(self)@[b].0@);
                    } else {
                        assert(old(self)@[a].0@ != name@);
                    }
                }
            }
        }
    }

    /// Takes out the first filter called `name`, and says whether there was
    /// one.
    pub fn unregister_collision_filter(&mut self, name: &str) -> (found: bool)
        requires
            names_unique(old(self)@),
        ensures
            names_unique(final(self)@),
            found == (place_of(old(self)@, name@) < old(self)@.len()),
            found ==> final(self)@ == old(self)@.remove(place_of(old(self)@, name@)),
            !found ==> final(self)@ == old(self)@,
    {
        let owned = name.to_owned();
        let i = self.find(&owned);
        if i < self.filters.len() {
            let _ = self.filters.remove(i);
            proof {
                assert forall|a: int, b: int| 0 <= a < b < self@.len() implies self@[a].0@
                    != self@[b].0@ by {
                    let a0 = if a < i { a } else { a + 1 };
                    let b0 = if b < i { b } else { b + 1 };
                    assert(old(self)@[a0].0@ != old(self)@[b0].0@);
                }
            }
            true
        } else {
            false
        }
    }

    /// Whether every filter lets the two objects interact.
    pub fn is_pair_valid<S, T>(&self, co1: &CollisionObject<S, T>, co2: &CollisionObject<S, T>) -> (r:
        bool) where F: BroadPhasePairFilter<S, T>
        ensures
            r == all_valid(self@, *co1, *co2),
    {
        let mut i: usize = 0;
        while i < self.filters.len()
            invariant
                i <= self.filters@.len(),
                forall|j: int| 0 <= j < i ==> (#[trigger] self.filters@[j]).1.pair_valid(*co1, *co2),
            decreases self.filters@.len() - i,
        {
            if !self.filters[i].1.is_pair_valid(co1, co2) {
                return false;
            }
            i += 1;
        }
        true
    }
}

} // verus!
