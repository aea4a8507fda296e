//! The solver's state as mathematical data, and the invariants that tie its
//! counters and marks to the set of propagated variables.

use crate::count::{count_eq, first_eq};
use crate::formula::{Assignment, extends, models};
use crate::lit::{Lit, Var, VarValue};
use vstd::prelude::*;

verus! {

/// An occurrence of a literal: the index of a clause and a position in it.
pub type Occ = (usize, usize);

/// What a solver holds, as sequences.
pub struct State {
    /// The literals of each clause, in the order of recording.
    pub lits: Seq<Seq<Lit>>,
    /// The marks of each clause, one for each literal.
    pub marks: Seq<Seq<bool>>,
    /// For each clause, the number of its literals that are currently true.
    pub sat: Seq<usize>,
    /// The current value of each variable.
    pub value: Seq<VarValue>,
    /// Whether the value of a variable has been carried through the clauses.
    pub propagated: Seq<bool>,
    /// For each variable, the value that unit clauses ask of it and the number
    /// of clauses that ask.
    pub expected: Seq<(VarValue, usize)>,
    /// For each variable, where it occurs positively.
    pub pos: Seq<Seq<Occ>>,
    /// For each variable, where it occurs negatively.
    pub neg: Seq<Seq<Occ>>,
    /// The number of recorded occurrences of each variable.
    pub cnt: Seq<usize>,
    /// The number of clauses that no true literal satisfies.
    pub unsat: usize,
    /// The number of clauses that entered the occurrence lists; the clause
    /// that made the formula contradictory when it was added is not among them.
    pub indexed: nat,
    /// False once the formula is known to be unsatisfiable.
    pub status: bool,
}

/// The literal of variable `v` with polarity `positive`.
pub open spec fn lit_of(v: int, positive: bool) -> Lit {
    Lit { var: Var { num: v as usize }, positive }
}

/// Position `(c, p)` comes before position `(cc, cp)`.
pub open spec fn before(c: int, p: int, cc: int, cp: int) -> bool {
    c < cc || (c == cc && p < cp)
}

impl State {
    /// `(c, p)` is a position of a literal in an indexed clause.
    pub open spec fn is_pos(self, c: int, p: int) -> bool {
        0 <= c < self.indexed && 0 <= p < self.lits[c].len()
    }

    /// The sequences have the lengths that belong together, and every
    /// literal speaks of a known variable.
    pub open spec fn shape(self) -> bool {
        &&& self.lits.len() <= usize::MAX
        &&& self.value.len() <= usize::MAX
        &&& self.marks.len() == self.lits.len()
        &&& self.sat.len() == self.lits.len()
        &&& self.indexed <= self.lits.len()
        &&& self.propagated.len() == self.value.len()
        &&& self.expected.len() == self.value.len()
        &&& self.pos.len() == self.value.len()
        &&& self.neg.len() == self.value.len()
        &&& self.cnt.len() == self.value.len()
        &&& forall|c: int|
            0 <= c < self.lits.len() ==> (#[trigger] self.marks[c]).len() == self.lits[c].len()
                && self.lits[c].len() <= usize::MAX
        &&& forall|c: int, p: int|
            0 <= c < self.lits.len() && 0 <= p < self.lits[c].len() ==> (
            #[trigger] self.lits[c][p]).var.num < self.value.len()
    }

    /// The literal is true under the propagated values.
    pub open spec fn lit_true(self, l: Lit) -> bool {
        self.propagated[l.var_index()] && self.value[l.var_index()] == l.polarity()
    }

    /// The literal is false under the propagated values.
    pub open spec fn lit_false(self, l: Lit) -> bool {
        self.propagated[l.var_index()] && self.value[l.var_index()] == l.negated().polarity()
    }

    /// The values of the propagated variables; the others count as undecided.
    pub open spec fn assigned(self) -> Seq<VarValue> {
        Seq::new(
            self.value.len(),
            |v: int|
                if self.propagated[v] {
                    self.value[v]
                } else {
                    VarValue::VUndef
                },
        )
    }

    /// For each position of clause `c`, whether its literal is true.
    pub open spec fn true_flags(self, c: int) -> Seq<bool> {
        Seq::new(self.lits[c].len(), |p: int| self.lit_true(self.lits[c][p]))
    }

    /// For each indexed clause, whether no true literal satisfies it.
    pub open spec fn zero_flags(self) -> Seq<bool> {
        Seq::new(self.indexed, |c: int| self.sat[c] == 0)
    }

    /// The number of unmarked literals of clause `c`.
    pub open spec fn live(self, c: int) -> nat {
        count_eq(self.marks[c], false)
    }

    /// The first unmarked literal of clause `c`.
    pub open spec fn first(self, c: int) -> Lit {
        self.lits[c][first_eq(self.marks[c], false)]
    }

    /// The variable that clause `c` asks a value of: the variable of its one
    /// unmarked literal where marks have left exactly one; `cur` where they
    /// have left none; no variable (-1) otherwise.
    pub open spec fn target(self, c: int, cur: int) -> int {
        if self.lits[c].len() >= 2 && self.live(c) == 1 {
            self.first(c).var_index()
        } else if self.lits[c].len() >= 2 && self.live(c) == 0 {
            cur
        } else {
            -1
        }
    }

    /// For each clause, whether it asks a value of variable `v`.
    pub open spec fn target_flags(self, v: int, cur: int) -> Seq<bool> {
        Seq::new(self.lits.len(), |c: int| self.target(c, cur) == v)
    }

    /// Each `sat` counter is the number of true literals of its clause.
    pub open spec fn sat_ok(self) -> bool {
        forall|c: int|
            0 <= c < self.lits.len() ==> #[trigger] self.sat[c] == count_eq(
                self.true_flags(c),
                true,
            )
    }

    /// `unsat` is the number of indexed clauses without a true literal.
    pub open spec fn unsat_ok(self) -> bool {
        self.unsat == count_eq(self.zero_flags(), true)
    }

    /// Only false literals are marked.
    pub open spec fn marks_weak(self) -> bool {
        forall|c: int, p: int|
            0 <= c < self.lits.len() && 0 <= p < self.lits[c].len() && #[trigger] self.marks[c][p]
                ==> self.lit_false(self.lits[c][p])
    }

    /// In a clause without a true literal, every false literal is marked.
    pub open spec fn marks_exact(self) -> bool {
        forall|c: int, p: int|
            0 <= c < self.lits.len() && 0 <= p < self.lits[c].len() && self.sat[c] == 0
                && self.lit_false(self.lits[c][p]) ==> #[trigger] self.marks[c][p]
    }

    /// Each expected count is the number of clauses that ask a value of the
    /// variable.
    pub open spec fn expected_ok(self, cur: int) -> bool {
        forall|v: int|
            0 <= v < self.value.len() ==> (#[trigger] self.expected[v]).1 == count_eq(
                self.target_flags(v, cur),
                true,
            )
    }

    /// An expected value is undecided exactly when no clause asks, and
    /// otherwise it is what every asking clause asks for.
    pub open spec fn expected_val_ok(self) -> bool {
        &&& forall|v: int|
            0 <= v < self.value.len() ==> ((#[trigger] self.expected[v]).1 == 0
                <==> self.expected[v].0 == VarValue::VUndef)
        &&& forall|c: int|
            0 <= c < self.lits.len() && self.lits[c].len() >= 2 && #[trigger] self.live(c) == 1
                ==> self.first(c).polarity() == self.expected[self.first(c).var_index()].0
    }

    /// Every clause has an unmarked literal left.
    pub open spec fn no_empty(self) -> bool {
        forall|c: int| 0 <= c < self.lits.len() ==> #[trigger] self.live(c) >= 1
    }

    /// A propagated variable has a value.
    pub open spec fn bound_ok(self) -> bool {
        forall|v: int|
            0 <= v < self.value.len() && #[trigger] self.propagated[v] ==> self.value[v]
                != VarValue::VUndef
    }

    /// `list` holds the positions of literal `l` in the indexed clauses: all
    /// of them, each once, in increasing order.
    pub open spec fn occ_list_ok(self, list: Seq<Occ>, l: Lit) -> bool {
        &&& forall|j: int|
            0 <= j < list.len() ==> self.is_pos((#[trigger] list[j]).0 as int, list[j].1 as int)
                && self.lits[list[j].0 as int][list[j].1 as int] == l
        &&& forall|j: int, k: int|
            0 <= j < k < list.len() ==> before(
                (#[trigger] list[j]).0 as int,
                list[j].1 as int,
                (#[trigger] list[k]).0 as int,
                list[k].1 as int,
            )
        &&& forall|c: int, p: int|
            self.is_pos(c, p) && #[trigger] self.lits[c][p] == l ==> listed(list, c, p)
    }

    /// The occurrence lists of variable `v` are as `occ_list_ok` says, and
    /// its occurrence count is their length.
    pub open spec fn var_map_ok(self, v: int) -> bool {
        &&& self.occ_list_ok(self.pos[v], lit_of(v, true))
        &&& self.occ_list_ok(self.neg[v], lit_of(v, false))
        &&& self.cnt[v] == self.pos[v].len() + self.neg[v].len()
        &&& self.cnt[v] <= size_of(self.lits, self.indexed)
    }

    /// The occurrence lists and counts of every variable are right.
    pub open spec fn map_ok(self) -> bool {
        forall|v: int| 0 <= v < self.value.len() ==> #[trigger] self.var_map_ok(v)
    }

    /// Nothing is propagated, counted, marked or expected: the state of a
    /// solver before any search.
    pub open spec fn blank(self) -> bool {
        &&& forall|v: int| 0 <= v < self.propagated.len() ==> !#[trigger] self.propagated[v]
        &&& forall|c: int| 0 <= c < self.sat.len() ==> #[trigger] self.sat[c] == 0
        &&& forall|c: int, p: int|
            0 <= c < self.marks.len() && 0 <= p < self.marks[c].len() ==> !#[trigger] self.marks[c][p]
        &&& forall|v: int|
            0 <= v < self.expected.len() ==> #[trigger] self.expected[v] == (
                VarValue::VUndef,
                0usize,
            )
        &&& self.unsat == self.indexed
    }

    /// No clause is empty.
    pub open spec fn all_nonempty(self) -> bool {
        forall|c: int| 0 <= c < self.lits.len() ==> (#[trigger] self.lits[c]).len() > 0
    }

    /// Every assignment that satisfies the formula agrees with the values.
    pub open spec fn grounded(self) -> bool {
        forall|m: Assignment| #[trigger] models(self.lits, m) ==> extends(m, self.value)
    }

    /// Every variable that has a value is propagated.
    pub open spec fn settled(self) -> bool {
        forall|v: int|
            0 <= v < self.value.len() && #[trigger] self.value[v] != VarValue::VUndef
                ==> self.propagated[v]
    }

    /// What holds of every state that a solver can be in, also where clauses
    /// were added after a search: the count of clauses without a true literal
    /// goes by the counters, only false literals are marked, a propagated
    /// variable has a value, and the occurrence lists are right.
    pub open spec fn loose_inv(self) -> bool {
        &&& self.shape()
        &&& self.unsat_ok()
        &&& self.marks_weak()
        &&& self.bound_ok()
        &&& self.map_ok()
    }

    /// What holds of every state that a solver is in unless clauses were
    /// added after a search: besides `loose_inv`, every counter is the number
    /// of true literals of its clause.
    pub open spec fn base_inv(self) -> bool {
        &&& self.shape()
        &&& self.sat_ok()
        &&& self.unsat_ok()
        &&& self.marks_weak()
        &&& self.bound_ok()
        &&& self.map_ok()
    }

    /// What holds in addition between two steps of a search: marks and
    /// expected values are exact, and no clause is empty or emptied.
    pub open spec fn core_inv(self) -> bool {
        &&& self.base_inv()
        &&& self.indexed == self.lits.len()
        &&& self.marks_exact()
        &&& self.expected_ok(-1)
        &&& self.expected_val_ok()
        &&& self.no_empty()
    }
}

/// Position `(c, p)` is an entry of `list`.
pub open spec fn listed(list: Seq<Occ>, c: int, p: int) -> bool {
    exists|j: int| 0 <= j < list.len() && (#[trigger] list[j]).0 as int == c && list[j].1 as int == p
}

/// The values that the clauses of one literal among the first `k` clauses
/// give to `n` variables; where two such clauses speak of one variable, the
/// later one counts.
pub open spec fn unit_values(lits: Seq<Seq<Lit>>, k: nat, n: nat) -> Seq<VarValue>
    decreases k,
{
    if k == 0 {
        Seq::new(n, |v: int| VarValue::VUndef)
    } else {
        let prev = unit_values(lits, (k - 1) as nat, n);
        let cl = lits[k - 1];
        if cl.len() == 1 && cl[0].var_index() < n {
            prev.update(cl[0].var_index(), cl[0].polarity())
        } else {
            prev
        }
    }
}

/// The number of literals in the first `k` clauses.
pub open spec fn size_of(lits: Seq<Seq<Lit>>, k: nat) -> nat
    decreases k,
{
    if k == 0 {
        0
    } else {
        size_of(lits, (k - 1) as nat) + lits[k - 1].len()
    }
}

/// The number of literals in the formula.
pub open spec fn formula_size(f: Seq<Seq<Lit>>) -> nat {
    size_of(f, f.len())
}

} // verus!
