//! A set of variable indices with a fixed capacity, from which a member can
//! be taken in an order that depends on nothing but the calls made.

use crate::count::{count_eq, lemma_count_bound, lemma_count_update};
use vstd::prelude::*;

verus! {

/// The position in `order` of the last entry that is among `members`; -1
/// where no entry is.
pub open spec fn top(order: Seq<usize>, members: Set<usize>) -> int
    decreases order.len(),
{
    if order.len() == 0 {
        -1
    } else if members.contains(order.last()) {
        order.len() - 1
    } else {
        top(order.drop_last(), members)
    }
}

/// A set of variable indices below a capacity. It stands for the variables
/// that unit clauses currently ask a value of. It holds at most one entry for
/// each variable, and so never more entries than its capacity.
#[derive(Debug)]
pub struct AssignmentSet {
    member: Vec<bool>,
    queued: Vec<bool>,
    stack: Vec<usize>,
}

impl AssignmentSet {
    /// The number of variables that the set can hold: the indices below it.
    pub closed spec fn capacity(&self) -> nat {
        self.member@.len()
    }

    /// The entries in the order in which they were made. Every member has an
    /// entry; an entry may be left of a variable that is no member any more.
    pub closed spec fn order(&self) -> Seq<usize> {
        self.stack@
    }

    /// The members.
    pub closed spec fn view(&self) -> Set<usize> {
        Set::new(|v: usize| v < self.member@.len() && self.member@[v as int])
    }

    /// Every member has an entry, no variable has two, every entry is below
    /// the capacity, and the flags that tell which variables have an entry
    /// are right.
    pub closed spec fn wf(&self) -> bool {
        &&& self.queued@.len() == self.member@.len()
        &&& forall|v: int| 0 <= v < self.member@.len() && #[trigger] self.member@[v] ==> self.queued@[v]
        &&& forall|v: int|
            0 <= v < self.queued@.len() && #[trigger] self.queued@[v] ==> exists|k: int|
                0 <= k < self.stack@.len() && #[trigger] self.stack@[k] == v
        &&& forall|k: int|
            0 <= k < self.stack@.len() ==> (#[trigger] self.stack@[k]) < self.member@.len()
                && self.queued@[self.stack@[k] as int]
        &&& forall|j: int, k: int|
            0 <= j < k < self.stack@.len() ==> #[trigger] self.stack@[j] != #[trigger] self.stack@[k]
        &&& self.stack@.len() == count_eq(self.queued@, true)
    }

    /// The set never holds more entries than its capacity.
    pub proof fn lemma_order_bound(&self)
        requires
            self.wf(),
        ensures
            self.order().len() <= self.capacity(),
    {
        lemma_count_bound(self.queued@, true);
    }

    /// The empty set over the variables below `capacity`.
    pub fn new(capacity: usize) -> (s: AssignmentSet)
        ensures
            s.wf(),
            s.capacity() == capacity,
            s@ == Set::<usize>::empty(),
            s.order() == Seq::<usize>::empty(),
    {
        let mut member = Vec::<bool>::new();
        let mut queued = Vec::<bool>::new();
        let mut i: usize = 0;
        while i < capacity
            invariant
                i <= capacity,
                member@.len() == i,
                queued@.len() == i,
                forall|j: int| 0 <= j < i ==> !member@[j],
                forall|j: int| 0 <= j < i ==> !queued@[j],
            decreases capacity - i,
        {
            member.push(false);
            queued.push(false);
            i += 1;
        }
        let s = AssignmentSet { member, queued, stack: Vec::new() };
        proof {
            assert(s@ =~= Set::<usize>::empty());
            crate::count::lemma_count_zero(s.queued@, true);
        }
        s
    }

    /// Whether `v` is a member.
    pub fn contains(&self, v: usize) -> (b: bool)
        ensures
            b == self@.contains(v),
    {
        v < self.member.len() && self.member[v]
    }

    /// Adds `v`, if it is below the capacity. A variable without an entry
    /// gets one behind the others.
    pub fn insert(&mut self, v: usize)
        requires
            old(self).wf(),
        ensures
            final(self).wf(),
            final(self).capacity() == old(self).capacity(),
            final(self)@ == if v < old(self).capacity() {
                old(self)@.insert(v)
            } else {
                old(self)@
            },
            final(self).order() == if v < old(self).capacity() && !old(self).order().contains(v) {
                old(self).order().push(v)
            } else {
                old(self).order()
            },
            final(self).order().len() <= final(self).capacity(),
    {
        if v < self.member.len() && !self.member[v] {
            self.member[v] = true;
            if !self.queued[v] {
                proof {
                    lemma_count_update(self.queued@, v as int, true, true);
                    if old(self).stack@.contains(v) {
                        let k = choose|k: int| 0 <= k < old(self).stack@.len() && old(self).stack@[k] == v;
                        assert(old(self).queued@[old(self).stack@[k] as int]);
                    }
                }
                self.queued[v] = true;
                self.stack.push(v);
                proof {
                    let k0 = old(self).stack@.len() as int;
                    assert(self.stack@[k0] == v);
                    assert forall|w: int|
                        0 <= w < self.queued@.len() && #[trigger] self.queued@[w] implies exists|k: int|
                        0 <= k < self.stack@.len() && #[trigger] self.stack@[k] == w by {
                        if w != v {
                            assert(old(self).queued@[w]);
                            let k = choose|k: int|
                                0 <= k < old(self).stack@.len() && #[trigger] old(self).stack@[k]
                                    == w;
                            assert(self.stack@[k] == w);
                        }
                    }
                    assert forall|k: int| 0 <= k < self.stack@.len() implies (
                    #[trigger] self.stack@[k]) < self.member@.len()
                        && self.queued@[self.stack@[k] as int] by {
                        if k < k0 {
                            assert(old(self).stack@[k] < old(self).member@.len());
                        }
                    }
                    assert forall|j: int, k: int| 0 <= j < k < self.stack@.len() implies #[trigger] self.stack@[j]
                        != #[trigger] self.stack@[k] by {
                        assert(self.stack@[j] == old(self).stack@[j]);
                        if k == k0 {
                            assert(old(self).queued@[old(self).stack@[j] as int]);
                        } else {
                            assert(self.stack@[k] == old(self).stack@[k]);
                        }
                    }
                }
            } else {
                proof {
                    let k = choose|k: int|
                        0 <= k < self.stack@.len() && #[trigger] self.stack@[k] == v;
                    assert(self.stack@.contains(v));
                }
            }
        } else if v < self.member.len() {
            proof {
                assert(self.queued@[v as int]);
                let k = choose|k: int| 0 <= k < self.stack@.len() && #[trigger] self.stack@[k] == v;
                assert(self.stack@.contains(v));
            }
        }
        proof {
            assert(self@ =~= if v < old(self).capacity() {
                old(self)@.insert(v)
            } else {
                old(self)@
            });
            lemma_count_bound(self.queued@, true);
        }
    }

    /// Takes `v` out, if it is a member. Its entry stays.
    pub fn remove(&mut self, v: usize)
        requires
            old(self).wf(),
        ensures
            final(self).wf(),
            final(self).capacity() == old(self).capacity(),
            final(self)@ == old(self)@.remove(v),
            final(self).order() == old(self).order(),
    {
        if v < self.member.len() {
            self.member[v] = false;
            proof {
                assert forall|w: int|
                    0 <= w < self.member@.len() && #[trigger] self.member@[w] implies self.queued@[w] by {
                    assert(old(self).member@[w]);
                }
                assert forall|w: int|
                    0 <= w < self.queued@.len() && #[trigger] self.queued@[w] implies exists|k: int|
                    0 <= k < self.stack@.len() && #[trigger] self.stack@[k] == w by {
                    let k = choose|k: int|
                        0 <= k < old(self).stack@.len() && #[trigger] old(self).stack@[k] == w;
                    assert(self.stack@[k] == w);
                }
                assert forall|k: int| 0 <= k < self.stack@.len() implies (
                #[trigger] self.stack@[k]) < self.member@.len()
                    && self.queued@[self.stack@[k] as int] by {
                    assert(old(self).stack@[k] < old(self).member@.len());
                }
            }
        }
        assert(self@ =~= old(self)@.remove(v));
    }

    /// Takes out one member and returns it; returns nothing exactly when the
    /// set is empty. The member with the last entry is taken; that entry and
    /// those behind it go.
    pub fn pick(&mut self) -> (r: Option<usize>)
        requires
            old(self).wf(),
        ensures
            final(self).wf(),
            final(self).capacity() == old(self).capacity(),
            match r {
                Some(v) => old(self)@.contains(v) && v < old(self).capacity() && final(self)@
                    == old(self)@.remove(v) && top(old(self).order(), old(self)@) >= 0 && v
                    == old(self).order()[top(old(self).order(), old(self)@)] && final(self).order()
                    == old(self).order().take(top(old(self).order(), old(self)@)),
                None => old(self)@ == Set::<usize>::empty() && final(self)@ == old(self)@ && final(self).order() == Seq::<usize>::empty() && top(old(self).order(), old(self)@) < 0,
            },
    {
        loop
            invariant
                self.wf(),
                self.member@ == old(self).member@,
                self.stack@.len() <= old(self).stack@.len(),
                self.stack@ == old(self).stack@.take(self.stack@.len() as int),
                top(self.stack@, old(self)@) == top(old(self).stack@, old(self)@),
            decreases self.stack@.len(),
        {
            let ghost prev = self.stack@;
            let ghost flags = self.queued@;
            match self.stack.pop() {
                None => {
                    proof {
                        assert forall|v: usize| !self@.contains(v) by {
                            if v < self.member@.len() && self.member@[v as int] {
                                assert(self.queued@[v as int]);
                            }
                        }
                        assert(self@ =~= Set::<usize>::empty());
                    }
                    return None;
                },
                Some(v) => {
                    let ghost before = self.member@;
                    let ghost n = self.stack@.len() as int;
                    proof {
                        assert(prev.drop_last() =~= self.stack@);
                        assert(self.stack@ =~= old(self).stack@.take(n));
                        assert(old(self)@.contains(v) == (v < before.len() && before[v as int]));
                        assert(prev[n] == v);
                        assert(flags[v as int]);
                        lemma_count_update(flags, v as int, false, true);
                    }
                    self.queued[v] = false;
                    proof {
                        assert forall|w: int|
                            0 <= w < self.queued@.len() && #[trigger] self.queued@[w] implies exists|
                            k: int,
                        | 0 <= k < self.stack@.len() && #[trigger] self.stack@[k] == w by {
                            assert(flags[w]);
                            let k = choose|k: int| 0 <= k < prev.len() && #[trigger] prev[k] == w;
                            assert(self.stack@[k] == w);
                        }
                        assert forall|k: int| 0 <= k < self.stack@.len() implies (
                        #[trigger] self.stack@[k]) < self.member@.len()
                            && self.queued@[self.stack@[k] as int] by {
                            assert(prev[k] == self.stack@[k]);
                            assert(prev[k] != prev[n]);
                        }
                        assert forall|j: int, k: int| 0 <= j < k < self.stack@.len() implies #[trigger] self.stack@[j]
                            != #[trigger] self.stack@[k] by {
                            assert(prev[j] == self.stack@[j] && prev[k] == self.stack@[k]);
                        }
                    }
                    if self.member[v] {
                        self.member[v] = false;
                        proof {
                            assert forall|w: int|
                                0 <= w < self.member@.len()
                                    && #[trigger] self.member@[w] implies self.queued@[w] by {
                                assert(before[w]);
                                assert(flags[w]);
                            }
                            assert(self@ =~= old(self)@.remove(v));
                        }
                        return Some(v);
                    } else {
                        proof {
                            assert forall|w: int|
                                0 <= w < self.member@.len()
                                    && #[trigger] self.member@[w] implies self.queued@[w] by {
                                assert(flags[w]);
                            }
                        }
                    }
                },
            }
        }
    }
}

} // verus!
