//! What recording a clause and returning to the state before any search
//! make of a state, and the invariants that they keep in every state.

use crate::count::{count_eq, lemma_count_bound, lemma_count_push, lemma_count_zero};
use crate::formula::{clause_holds, extends, lit_holds, models, Assignment};
use crate::fresh::with_value;
use crate::ingest::with_new_var;
use crate::lit::{Lit, VarValue};
use crate::state::{lit_of, unit_values, Occ, State};
use vstd::prelude::*;

verus! {

/// The state before any search of a solver that holds what `s` holds:
/// nothing is propagated, counted, marked or expected, every indexed clause
/// counts as unsatisfied, and a variable has a value exactly where a clause
/// of one literal gives it one. Formula, occurrence lists, counts of
/// occurrences and status are those of `s`.
pub open spec fn blanked(s: State) -> State {
    State {
        marks: Seq::new(s.lits.len(), |c: int| Seq::new(s.lits[c].len(), |p: int| false)),
        sat: Seq::new(s.lits.len(), |c: int| 0usize),
        value: unit_values(s.lits, s.lits.len(), s.value.len()),
        propagated: Seq::new(s.value.len(), |v: int| false),
        expected: Seq::new(s.value.len(), |v: int| (VarValue::VUndef, 0usize)),
        unsat: s.indexed as usize,
        ..s
    }
}

/// The positions of literal `l` among the first `k` literals of a clause
/// that is recorded as clause `n`.
pub open spec fn entries(cl: Seq<Lit>, n: int, l: Lit, k: nat) -> Seq<Occ>
    decreases k,
{
    if k == 0 {
        Seq::empty()
    } else if cl[k - 1] == l {
        entries(cl, n, l, (k - 1) as nat).push((n as usize, (k - 1) as usize))
    } else {
        entries(cl, n, l, (k - 1) as nat)
    }
}

/// The occurrence lists of one polarity after clause `cl` has been recorded
/// as clause `n`: each list has got the positions of its literal in `cl`.
pub open spec fn lists_with(lists: Seq<Seq<Occ>>, cl: Seq<Lit>, n: int, positive: bool) -> Seq<
    Seq<Occ>,
> {
    Seq::new(lists.len(), |v: int| lists[v] + entries(cl, n, lit_of(v, positive), cl.len()))
}

/// The counts of occurrences after clause `cl` has been recorded as clause
/// `n`.
pub open spec fn counts_with(cnt: Seq<usize>, cl: Seq<Lit>, n: int) -> Seq<usize> {
    Seq::new(
        cnt.len(),
        |v: int|
            (cnt[v] + entries(cl, n, lit_of(v, true), cl.len()).len() + entries(
                cl,
                n,
                lit_of(v, false),
                cl.len(),
            ).len()) as usize,
    )
}

/// The state after clause `cl` has been recorded and indexed: it is the
/// last clause, unmarked and with counter 0, its positions have entered the
/// occurrence lists, and the count of clauses without a true literal is one
/// more. Values, flags and expected values stay.
pub open spec fn indexed_with(s: State, cl: Seq<Lit>) -> State {
    State {
        lits: s.lits.push(cl),
        marks: s.marks.push(Seq::new(cl.len(), |p: int| false)),
        sat: s.sat.push(0usize),
        pos: lists_with(s.pos, cl, s.lits.len() as int, true),
        neg: lists_with(s.neg, cl, s.lits.len() as int, false),
        cnt: counts_with(s.cnt, cl, s.lits.len() as int),
        unsat: (s.unsat + 1) as usize,
        indexed: s.indexed + 1,
        ..s
    }
}

/// The state after clause `cl` has been recorded as the clause that makes
/// the formula contradictory: it is the last clause, unmarked and with
/// counter 0, and the status is false. Everything else stays, the count of
/// clauses without a true literal and the occurrence lists too.
pub open spec fn refuted_with(s: State, cl: Seq<Lit>) -> State {
    State {
        lits: s.lits.push(cl),
        marks: s.marks.push(Seq::new(cl.len(), |p: int| false)),
        sat: s.sat.push(0usize),
        status: false,
        ..s
    }
}

/// The state with variables made up to the number `n`.
pub open spec fn grown(s: State, n: nat) -> State
    decreases n,
{
    if n <= s.value.len() {
        s
    } else {
        with_new_var(grown(s, (n - 1) as nat))
    }
}

/// The number of variables after a clause with the literals `cl` has been
/// added to a solver with `n0` variables: variables are made up to the
/// largest index in the clause.
pub open spec fn vars_after(n0: nat, cl: Seq<Lit>) -> nat {
    if cl.len() > 0 && crate::clause::max_index(cl).unwrap() >= n0 {
        (crate::clause::max_index(cl).unwrap() + 1) as nat
    } else {
        n0
    }
}

/// What adding a clause with the literals `cl` makes of a state whose
/// status is true.
///
/// An empty clause is recorded and makes the status false. Else variables
/// are made up to the largest index in the clause. A clause of one literal
/// is compared with the value of its variable: against the opposite value it
/// is recorded and makes the status false; it gives the variable its value
/// and is recorded and indexed where the variable had none; it is dropped
/// where the variable has that value already. A longer clause is recorded
/// and indexed.
pub open spec fn ingest(s: State, cl: Seq<Lit>) -> State {
    let g = grown(s, vars_after(s.value.len(), cl));
    if cl.len() == 0 {
        refuted_with(s, cl)
    } else if cl.len() == 1 {
        if g.value[cl[0].var_index()] == cl[0].negated().polarity() {
            refuted_with(g, cl)
        } else if g.value[cl[0].var_index()] == VarValue::VUndef {
            indexed_with(with_value(g, cl[0].var_index(), cl[0].polarity()), cl)
        } else {
            g
        }
    } else {
        indexed_with(g, cl)
    }
}

/// No literal of the clause is true under the propagated values.
pub open spec fn no_true(s: State, cl: Seq<Lit>) -> bool {
    forall|p: int| 0 <= p < cl.len() ==> !s.lit_true(#[trigger] cl[p])
}

/// A new variable keeps `loose_inv`.
pub proof fn lemma_loose_new_var(s: State)
    requires
        s.loose_inv(),
        s.value.len() < usize::MAX,
    ensures
        with_new_var(s).loose_inv(),
{
    let t = with_new_var(s);
    let n = s.value.len() as int;
    assert(t.zero_flags() =~= s.zero_flags());
    assert(t.marks_weak()) by {
        assert forall|c: int, p: int|
            0 <= c < t.lits.len() && 0 <= p < t.lits[c].len()
                && #[trigger] t.marks[c][p] implies t.lit_false(t.lits[c][p]) by {
            assert(s.marks[c][p]);
            assert(s.lits[c][p].var.num < s.value.len());
        }
    }
    assert(t.map_ok()) by {
        assert forall|w: int| 0 <= w < t.value.len() implies #[trigger] t.var_map_ok(w) by {
            if w < n {
                assert(s.var_map_ok(w));
            } else {
                assert forall|c: int, p: int| t.is_pos(c, p) implies (
                #[trigger] t.lits[c][p]).var.num != w by {
                    assert(s.lits[c][p].var.num < s.value.len());
                }
            }
        }
    }
    assert(t.bound_ok()) by {
        assert forall|w: int| 0 <= w < t.value.len() && #[trigger] t.propagated[w] implies t.value[w]
            != VarValue::VUndef by {
            assert(s.propagated[w]);
        }
    }
}

/// A value for a variable that had none keeps `loose_inv`.
pub proof fn lemma_loose_set_value(s: State, v: int, x: VarValue)
    requires
        s.loose_inv(),
        0 <= v < s.value.len(),
        s.value[v] == VarValue::VUndef,
        x != VarValue::VUndef,
    ensures
        with_value(s, v, x).loose_inv(),
        !s.propagated[v],
{
    let t = with_value(s, v, x);
    assert(t.zero_flags() =~= s.zero_flags());
    assert(t.marks_weak()) by {
        assert forall|c: int, p: int|
            0 <= c < t.lits.len() && 0 <= p < t.lits[c].len()
                && #[trigger] t.marks[c][p] implies t.lit_false(t.lits[c][p]) by {
            assert(s.marks[c][p]);
            assert(s.lits[c][p].var.num < s.value.len());
        }
    }
    assert(t.map_ok()) by {
        assert forall|w: int| 0 <= w < t.value.len() implies #[trigger] t.var_map_ok(w) by {
            assert(s.var_map_ok(w));
        }
    }
    assert(t.bound_ok()) by {
        assert forall|w: int| 0 <= w < t.value.len() && #[trigger] t.propagated[w] implies t.value[w]
            != VarValue::VUndef by {
            assert(s.propagated[w]);
        }
    }
}

/// Recording a clause as the last one, with counter 0 and without a mark,
/// keeps what `loose_inv` says of counts, marks and values: where the clause
/// is indexed and counted, and where it is neither.
pub proof fn lemma_loose_recorded(s: State, t: State, cl: Seq<Lit>, counted: bool)
    requires
        s.loose_inv(),
        t.shape(),
        t.lits == s.lits.push(cl),
        t.marks == s.marks.push(Seq::new(cl.len(), |p: int| false)),
        t.sat == s.sat.push(0usize),
        t.value == s.value,
        t.propagated == s.propagated,
        counted ==> s.indexed == s.lits.len() && t.indexed == s.indexed + 1 && t.unsat == s.unsat
            + 1,
        !counted ==> t.indexed == s.indexed && t.unsat == s.unsat,
    ensures
        t.unsat_ok(),
        t.marks_weak(),
        t.bound_ok(),
        counted ==> s.unsat < usize::MAX,
{
    if counted {
        assert(t.zero_flags() =~= s.zero_flags().push(true));
        lemma_count_push(s.zero_flags(), true, true);
    } else {
        assert(t.zero_flags() =~= s.zero_flags());
    }
    lemma_count_bound(t.zero_flags(), true);
    assert(t.marks_weak()) by {
        assert forall|c: int, p: int|
            0 <= c < t.lits.len() && 0 <= p < t.lits[c].len()
                && #[trigger] t.marks[c][p] implies t.lit_false(t.lits[c][p]) by {
            if c < s.lits.len() {
                assert(s.marks[c][p]);
            }
        }
    }
    assert(t.bound_ok()) by {
        assert forall|w: int| 0 <= w < t.value.len() && #[trigger] t.propagated[w] implies t.value[w]
            != VarValue::VUndef by {
            assert(s.propagated[w]);
        }
    }
}

/// Recording a clause without a true literal keeps the counters right: each
/// is still the number of true literals of its clause.
pub proof fn lemma_sat_recorded(s: State, t: State, cl: Seq<Lit>)
    requires
        s.shape(),
        s.sat_ok(),
        no_true(s, cl),
        t.lits == s.lits.push(cl),
        t.sat == s.sat.push(0usize),
        t.value == s.value,
        t.propagated == s.propagated,
    ensures
        t.sat_ok(),
{
    assert forall|c: int| 0 <= c < t.lits.len() implies #[trigger] t.sat[c] == count_eq(
        t.true_flags(c),
        true,
    ) by {
        if c < s.lits.len() {
            assert(t.true_flags(c) =~= s.true_flags(c));
            assert(s.sat[c] == count_eq(s.true_flags(c), true));
        } else {
            assert forall|p: int| 0 <= p < t.true_flags(c).len() implies t.true_flags(c)[p]
                != true by {
                assert(!s.lit_true(cl[p]));
            }
            lemma_count_zero(t.true_flags(c), true);
        }
    }
}

/// Where every assignment that satisfies the formula agrees with the
/// values, it does so after one clause more has been recorded.
pub proof fn lemma_grounded_recorded(s: State, t: State, cl: Seq<Lit>)
    requires
        s.grounded(),
        t.lits == s.lits.push(cl),
        t.value == s.value,
    ensures
        t.grounded(),
{
    assert forall|m: Assignment| #[trigger] models(t.lits, m) implies extends(m, t.value) by {
        assert forall|c: int| 0 <= c < s.lits.len() implies clause_holds(#[trigger] s.lits[c], m) by {
            assert(clause_holds(t.lits[c], m));
        }
        assert(models(s.lits, m));
    }
}

/// Where every assignment that satisfies the formula agrees with the
/// values, it does so after a clause of one literal has been recorded and
/// has given its variable the value.
pub proof fn lemma_grounded_unit(s: State, t: State, l: Lit)
    requires
        s.grounded(),
        0 <= l.var_index() < s.value.len(),
        t.lits == s.lits.push(seq![l]),
        t.value == s.value.update(l.var_index(), l.polarity()),
    ensures
        t.grounded(),
{
    assert forall|m: Assignment| #[trigger] models(t.lits, m) implies extends(m, t.value) by {
        assert forall|c: int| 0 <= c < s.lits.len() implies clause_holds(#[trigger] s.lits[c], m) by {
            assert(clause_holds(t.lits[c], m));
        }
        assert(models(s.lits, m));
        assert(extends(m, s.value));
        assert(clause_holds(t.lits[s.lits.len() as int], m));
        let p = choose|p: int|
            0 <= p < seq![l].len() && lit_holds(#[trigger] seq![l][p], m);
        assert(lit_holds(l, m));
        assert forall|v: int| 0 <= v < t.value.len() implies (#[trigger] t.value[v]
            == VarValue::VTrue ==> m(v)) && (t.value[v] == VarValue::VFalse ==> !m(v)) by {
            if v != l.var_index() {
                assert(t.value[v] == s.value[v]);
            }
        }
    }
}

/// A clause of one literal against a value with which every satisfying
/// assignment agrees leaves no satisfying assignment; nor does an empty
/// clause.
pub proof fn lemma_refuted_unsat(s: State, cl: Seq<Lit>)
    requires
        cl.len() == 0 || (cl.len() == 1 && s.grounded() && 0 <= cl[0].var_index() < s.value.len()
            && s.value[cl[0].var_index()] == cl[0].negated().polarity()),
    ensures
        !crate::formula::satisfiable(s.lits.push(cl)),
{
    let f1 = s.lits.push(cl);
    assert forall|m: Assignment| !#[trigger] models(f1, m) by {
        if models(f1, m) {
            assert(clause_holds(f1[s.lits.len() as int], m));
            if cl.len() == 1 {
                assert forall|c: int| 0 <= c < s.lits.len() implies clause_holds(
                    #[trigger] s.lits[c],
                    m,
                ) by {
                    assert(clause_holds(f1[c], m));
                }
                assert(models(s.lits, m));
                assert(extends(m, s.value));
                assert(lit_holds(cl[0], m));
                assert(s.value[cl[0].var_index()] != VarValue::VUndef);
            }
        }
    }
}

/// `loose_inv` does not depend on the status.
pub proof fn lemma_loose_status_frame(s: State, status: bool)
    requires
        s.loose_inv(),
    ensures
        (State { status, ..s }).loose_inv(),
{
    let t = State { status, ..s };
    assert(t.zero_flags() =~= s.zero_flags());
    assert forall|w: int| 0 <= w < t.value.len() implies #[trigger] t.var_map_ok(w) by {
        assert(s.var_map_ok(w));
    }
    assert(t.marks_weak()) by {
        assert forall|c: int, p: int|
            0 <= c < t.lits.len() && 0 <= p < t.lits[c].len()
                && #[trigger] t.marks[c][p] implies t.lit_false(t.lits[c][p]) by {
            assert(s.marks[c][p]);
        }
    }
}

} // verus!
