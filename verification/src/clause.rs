//! Clauses: ordered sequences of literals, each of which can be removed
//! logically and restored again.

use crate::count::{
    count_eq, first_eq, lemma_count_bound, lemma_count_full, lemma_count_push, lemma_count_update,
    lemma_first_eq,
};
use crate::lit::Lit;
use vstd::prelude::*;

verus! {

/// The largest variable index among the literals, if there is a literal.
pub open spec fn max_index(lits: Seq<Lit>) -> Option<usize>
    decreases lits.len(),
{
    if lits.len() == 0 {
        None
    } else {
        match max_index(lits.drop_last()) {
            None => Some(lits.last().var.num),
            Some(m) => Some(
                if m < lits.last().var.num {
                    lits.last().var.num
                } else {
                    m
                },
            ),
        }
    }
}

/// `max_index` is an upper bound of every variable index, and is absent
/// only for the empty sequence.
pub proof fn lemma_max_index(lits: Seq<Lit>)
    ensures
        lits.len() == 0 <==> max_index(lits) is None,
        forall|i: int|
            0 <= i < lits.len() ==> (#[trigger] lits[i]).var.num <= max_index(lits).unwrap(),
        lits.len() > 0 ==> exists|i: int|
            0 <= i < lits.len() && (#[trigger] lits[i]).var.num == max_index(lits).unwrap(),
    decreases lits.len(),
{
    if lits.len() > 0 {
        let t = lits.drop_last();
        lemma_max_index(t);
        assert forall|i: int| 0 <= i < lits.len() implies (#[trigger] lits[i]).var.num
            <= max_index(lits).unwrap() by {
            if i < lits.len() - 1 {
                assert(t[i] == lits[i]);
            }
        }
        if t.len() > 0 && max_index(lits) == max_index(t) {
            let i = choose|i: int|
                0 <= i < t.len() && (#[trigger] t[i]).var.num == max_index(t).unwrap();
            assert(lits[i] == t[i]);
        } else {
            assert(lits[lits.len() - 1].var.num == max_index(lits).unwrap());
        }
    }
}

/// The literals of `lits` whose mark is not set, in order.
pub open spec fn live_lits(lits: Seq<Lit>, marks: Seq<bool>) -> Seq<Lit>
    recommends
        lits.len() == marks.len(),
    decreases lits.len(),
{
    if lits.len() == 0 || lits.len() != marks.len() {
        Seq::empty()
    } else if marks.last() {
        live_lits(lits.drop_last(), marks.drop_last())
    } else {
        live_lits(lits.drop_last(), marks.drop_last()).push(lits.last())
    }
}

/// Where nothing is marked, every literal is live.
pub proof fn lemma_live_lits_unmarked(lits: Seq<Lit>, marks: Seq<bool>)
    requires
        lits.len() == marks.len(),
        forall|i: int| 0 <= i < marks.len() ==> !marks[i],
    ensures
        live_lits(lits, marks) == lits,
    decreases lits.len(),
{
    if lits.len() > 0 {
        lemma_live_lits_unmarked(lits.drop_last(), marks.drop_last());
        assert(lits.drop_last().push(lits.last()) =~= lits);
    }
}

/// A clause. Each literal carries a mark; a marked literal counts as removed.
#[derive(Debug, Clone)]
pub struct Clause {
    lits: Vec<Lit>,
    marks: Vec<bool>,
    max_lit: Option<usize>,
    len: usize,
}

impl Clause {
    /// The literals in the order in which they were pushed, marked or not.
    pub closed spec fn lits(&self) -> Seq<Lit> {
        self.lits@
    }

    /// The marks, one for each literal.
    pub closed spec fn marks(&self) -> Seq<bool> {
        self.marks@
    }

    /// The recorded number of literals that are not marked.
    pub closed spec fn live_len(&self) -> nat {
        self.len as nat
    }

    /// The recorded largest variable index.
    pub closed spec fn max_var(&self) -> Option<usize> {
        self.max_lit
    }

    /// The clause's records agree with its literals and marks.
    pub open spec fn wf(&self) -> bool {
        &&& self.marks().len() == self.lits().len()
        &&& self.lits().len() <= usize::MAX
        &&& self.live_len() == count_eq(self.marks(), false)
        &&& self.max_var() == max_index(self.lits())
    }

    /// No literal is marked.
    pub open spec fn unmarked(&self) -> bool {
        forall|i: int| 0 <= i < self.marks().len() ==> !self.marks()[i]
    }

    /// The position of the first literal that is not marked.
    pub open spec fn first_live(&self) -> int {
        first_eq(self.marks(), false)
    }

    /// The empty clause.
    pub fn new() -> (c: Clause)
        ensures
            c.wf(),
            c.lits() == Seq::<Lit>::empty(),
            c.marks() == Seq::<bool>::empty(),
    {
        Clause { lits: Vec::new(), marks: Vec::new(), max_lit: None, len: 0 }
    }

    /// Adds a literal at the end of the clause, unmarked.
    pub fn push(&mut self, lit: Lit)
        requires
            old(self).wf(),
        ensures
            final(self).wf(),
            final(self).lits() == old(self).lits().push(lit),
            final(self).marks() == old(self).marks().push(false),
    {
        let n = lit.var_num();
        match self.max_lit {
            Some(m) => {
                if m < n {
                    self.max_lit = Some(n);
                }
            },
            None => {
                self.max_lit = Some(n);
            },
        }
        self.lits.push(lit);
        self.marks.push(false);
        proof {
            lemma_count_push(old(self).marks@, false, false);
            lemma_count_bound(self.marks@, false);
            assert(self.marks@.len() == self.marks.len());
            assert(self.lits@.len() == self.lits.len());
            assert(self.lits@.drop_last() =~= old(self).lits@);
        }
        self.len = self.len + 1;
    }

    /// The number of literals that are not marked.
    pub fn len(&self) -> (n: usize)
        ensures
            n == self.live_len(),
    {
        self.len
    }

    /// The number of literals, marked or not.
    pub fn total(&self) -> (n: usize)
        ensures
            n == self.lits().len(),
    {
        self.lits.len()
    }

    /// The literal at position `idx`, marked or not.
    pub fn lit_at(&self, idx: usize) -> (l: Lit)
        requires
            idx < self.lits().len(),
        ensures
            l == self.lits()[idx as int],
    {
        self.lits[idx]
    }

    /// Whether the literal at position `idx` is marked.
    pub fn is_marked(&self, idx: usize) -> (b: bool)
        requires
            idx < self.marks().len(),
        ensures
            b == self.marks()[idx as int],
    {
        self.marks[idx]
    }

    /// The literals that are not marked, in order.
    pub fn get_all_lits(&self) -> (v: Vec<Lit>)
        requires
            self.wf(),
        ensures
            v@ == live_lits(self.lits(), self.marks()),
    {
        let mut v = Vec::<Lit>::new();
        let mut i: usize = 0;
        while i < self.lits.len()
            invariant
                i <= self.lits@.len(),
                self.lits@.len() == self.marks@.len(),
                v@ == live_lits(self.lits@.take(i as int), self.marks@.take(i as int)),
            decreases self.lits@.len() - i,
        {
            proof {
                assert(self.lits@.take(i + 1).drop_last() =~= self.lits@.take(i as int));
                assert(self.marks@.take(i + 1).drop_last() =~= self.marks@.take(i as int));
            }
            if !self.marks[i] {
                v.push(self.lits[i]);
            }
            i += 1;
        }
        proof {
            assert(self.lits@.take(i as int) =~= self.lits@);
            assert(self.marks@.take(i as int) =~= self.marks@);
        }
        v
    }

    /// The first literal that is not marked, if there is one.
    pub fn get_first(&self) -> (r: Option<Lit>)
        requires
            self.wf(),
        ensures
            self.live_len() == 0 ==> r is None,
            self.live_len() > 0 ==> r == Some(self.lits()[self.first_live()]) && 0
                <= self.first_live() < self.lits().len() && !self.marks()[self.first_live()],
    {
        if self.len > 0 {
            proof {
                lemma_first_eq(self.marks@, false);
            }
            let mut i: usize = 0;
            while self.marks[i]
                invariant
                    self.marks@.len() == self.lits@.len(),
                    0 <= i <= first_eq(self.marks@, false) < self.marks@.len(),
                    self.marks@[first_eq(self.marks@, false)] == false,
                    self.marks@.len() == self.marks.len(),
                decreases self.marks@.len() - i,
            {
                i += 1;
            }
            proof {
                lemma_first_eq(self.marks@, false);
            }
            Some(self.lits[i])
        } else {
            None
        }
    }

    /// Marks the literal at position `idx` as removed.
    pub fn remove(&mut self, idx: usize)
        requires
            old(self).wf(),
            idx < old(self).lits().len(),
        ensures
            final(self).wf(),
            final(self).lits() == old(self).lits(),
            final(self).marks() == old(self).marks().update(idx as int, true),
            final(self).live_len() == old(self).live_len() - if old(self).marks()[idx as int] {
                0int
            } else {
                1int
            },
    {
        if !self.marks[idx] {
            proof {
                lemma_count_update(self.marks@, idx as int, true, false);
            }
            self.marks[idx] = true;
            self.len = self.len - 1;
        } else {
            assert(self.marks@ =~= self.marks@.update(idx as int, true));
        }
    }

    /// Clears the mark of the literal at position `idx`.
    pub fn restore(&mut self, idx: usize)
        requires
            old(self).wf(),
            idx < old(self).lits().len(),
        ensures
            final(self).wf(),
            final(self).lits() == old(self).lits(),
            final(self).marks() == old(self).marks().update(idx as int, false),
            final(self).live_len() == old(self).live_len() + if old(self).marks()[idx as int] {
                1int
            } else {
                0int
            },
    {
        if self.marks[idx] {
            proof {
                lemma_count_update(self.marks@, idx as int, false, false);
                lemma_count_bound(self.marks@.update(idx as int, false), false);
                assert(self.marks@.len() == self.marks.len());
            }
            self.marks[idx] = false;
            self.len = self.len + 1;
        } else {
            assert(self.marks@ =~= self.marks@.update(idx as int, false));
        }
    }

    /// Clears every mark.
    pub fn restore_all(&mut self)
        requires
            old(self).wf(),
        ensures
            final(self).wf(),
            final(self).unmarked(),
            final(self).lits() == old(self).lits(),
            final(self).marks().len() == old(self).marks().len(),
            final(self).live_len() == old(self).lits().len(),
    {
        self.len = self.lits.len();
        let mut i: usize = 0;
        while i < self.marks.len()
            invariant
                i <= self.marks@.len(),
                self.marks@.len() == self.lits@.len(),
                self.lits@ == old(self).lits@,
                self.max_lit == old(self).max_lit,
                self.len == self.lits@.len(),
                forall|j: int| 0 <= j < i ==> !self.marks@[j],
            decreases self.marks@.len() - i,
        {
            self.marks[i] = false;
            i += 1;
        }
        proof {
            lemma_count_full(self.marks@, false);
        }
    }

    /// A clause with the same literals, none of them marked.
    pub fn unmarked_copy(&self) -> (c: Clause)
        requires
            self.wf(),
        ensures
            c.wf(),
            c.unmarked(),
            c.lits() == self.lits(),
    {
        let mut c = Clause::new();
        let mut i: usize = 0;
        while i < self.lits.len()
            invariant
                i <= self.lits@.len(),
                c.wf(),
                c.unmarked(),
                c.lits() == self.lits@.take(i as int),
            decreases self.lits@.len() - i,
        {
            c.push(self.lits[i]);
            proof {
                assert(self.lits@.take(i + 1) =~= self.lits@.take(i as int).push(self.lits@[i as int]));
            }
            i += 1;
        }
        proof {
            assert(self.lits@.take(i as int) =~= self.lits@);
        }
        c
    }

    /// The recorded largest variable index, if the clause has a literal.
    pub fn get_max(&self) -> (r: Option<usize>)
        ensures
            r == self.max_var(),
    {
        self.max_lit
    }

    /// Whether the clause has a literal and every variable index in it is
    /// below `num`.
    pub fn valid(&self, num: usize) -> (b: bool)
        requires
            self.wf(),
        ensures
            b == (self.lits().len() > 0 && forall|i: int|
                0 <= i < self.lits().len() ==> (#[trigger] self.lits()[i]).var.num < num),
    {
        proof {
            lemma_max_index(self.lits@);
        }
        match self.max_lit {
            Some(m) => m < num,
            None => false,
        }
    }
}

/// The literals that the picks take from `x`: for each pick the literal at
/// the picked position, as it is or, where the pick says false, negated.
pub open spec fn picked(x: Seq<Lit>, picks: Seq<(usize, bool)>) -> Seq<Lit> {
    Seq::new(
        picks.len(),
        |i: int|
            if picks[i].1 {
                x[picks[i].0 as int]
            } else {
                x[picks[i].0 as int].negated()
            },
    )
}

/// The clause of the literals that the picks take from `x`.
pub fn pick_clause(x: &[Lit], picks: &[(usize, bool)]) -> (c: Clause)
    requires
        forall|i: int| 0 <= i < picks@.len() ==> (#[trigger] picks@[i]).0 < x@.len(),
    ensures
        c.wf(),
        c.unmarked(),
        c.lits() == picked(x@, picks@),
{
    let mut c = Clause::new();
    let mut i: usize = 0;
    while i < picks.len()
        invariant
            0 <= i <= picks@.len(),
            forall|j: int| 0 <= j < picks@.len() ==> (#[trigger] picks@[j]).0 < x@.len(),
            c.wf(),
            c.unmarked(),
            c.lits() == picked(x@, picks@.take(i as int)),
        decreases picks@.len() - i,
    {
        let pick = picks[i];
        let lit = x[pick.0];
        if pick.1 {
            c.push(lit);
        } else {
            c.push(core::ops::Not::not(lit));
        }
        proof {
            assert(picked(x@, picks@.take(i + 1)) =~= picked(x@, picks@.take(i as int)).push(
                if pick.1 {
                    lit
                } else {
                    lit.negated()
                },
            ));
        }
        i += 1;
    }
    proof {
        assert(picks@.take(i as int) =~= picks@);
    }
    c
}

} // verus!
