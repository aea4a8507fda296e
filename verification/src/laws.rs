//! What holds of every solver, stated over its state.

use crate::count::{count_eq, lemma_count_full};
use crate::course::{carried, lemma_carried_back, lemma_search_determined};
use crate::ingest::lemma_map_determined;
use crate::loose::{blanked, grown, ingest, lemma_sat_recorded, no_true, vars_after};
use crate::passes::pass_pre;
use crate::formula::{model_satisfies, models, Assignment};
use crate::fresh::lemma_unit_values;
use crate::lit::{Lit, VarValue};
use crate::search::{solved, was_reset};
use crate::solver::Solver;
use crate::state::{lit_of, State};
use vstd::prelude::*;

verus! {

/// For each position of clause `c`: whether the value of the literal's
/// variable is the literal's polarity.
pub open spec fn value_flags(s: State, c: int) -> Seq<bool> {
    Seq::new(s.lits[c].len(), |p: int| s.value[s.lits[c][p].var_index()] == s.lits[c][p].polarity())
}

/// For each position of clause `c`: whether the value of the literal's
/// variable is not the opposite of the literal's polarity.
pub open spec fn soft_flags(s: State, c: int) -> Seq<bool> {
    Seq::new(
        s.lits[c].len(),
        |p: int| s.value[s.lits[c][p].var_index()].soft_equals(s.lits[c][p].polarity()),
    )
}

/// For each position of clause `c`: whether its literal is not false under
/// the propagated values.
pub open spec fn open_flags(s: State, c: int) -> Seq<bool> {
    Seq::new(s.lits[c].len(), |p: int| !s.lit_false(s.lits[c][p]))
}

/// In a solver that is not stale, the counter of a clause is the number of
/// its literals whose variable is propagated with the literal's polarity as
/// its value.
pub proof fn law_sat_counts(s: Solver, c: int)
    requires
        s.inv(),
        !s.stale(),
        0 <= c < s.formula().len(),
    ensures
        s.state().sat[c] == count_eq(s.state().true_flags(c), true),
{
}

/// Where every variable with a value is propagated, as after a search that
/// did not fail, the counter of a clause is the number of its literals whose
/// variable has the literal's polarity as its value.
pub proof fn law_sat_counts_settled(s: Solver, c: int)
    requires
        s.inv(),
        !s.stale(),
        s.state().settled(),
        0 <= c < s.formula().len(),
    ensures
        s.state().sat[c] == count_eq(value_flags(s.state(), c), true),
{
    let t = s.state();
    assert forall|p: int| 0 <= p < t.lits[c].len() implies value_flags(t, c)[p] == t.true_flags(
        c,
    )[p] by {
        assert(t.lits[c][p].var.num < t.value.len());
    }
    assert(value_flags(t, c) =~= t.true_flags(c));
}

/// In a solver whose status is true, a clause without a true literal has as
/// many unmarked literals as it has literals that are not false under the
/// propagated values.
pub proof fn law_live_len(s: Solver, c: int)
    requires
        s.inv(),
        !s.stale(),
        s.status(),
        0 <= c < s.formula().len(),
        s.state().sat[c] == 0,
    ensures
        s.state().live(c) == count_eq(open_flags(s.state(), c), true),
{
    let t = s.state();
    assert(t.marks[c].len() == t.lits[c].len());
    lemma_count_negate(t.marks[c], open_flags(t, c));
}

/// Where, besides, every variable with a value is propagated, those are the
/// literals whose variable does not have the opposite of the literal's
/// polarity as its value.
pub proof fn law_live_len_settled(s: Solver, c: int)
    requires
        s.inv(),
        !s.stale(),
        s.status(),
        s.state().settled(),
        0 <= c < s.formula().len(),
        s.state().sat[c] == 0,
    ensures
        s.state().live(c) == count_eq(soft_flags(s.state(), c), true),
{
    let t = s.state();
    law_live_len(s, c);
    assert forall|p: int| 0 <= p < t.lits[c].len() implies soft_flags(t, c)[p] == open_flags(
        t,
        c,
    )[p] by {
        assert(t.lits[c][p].var.num < t.value.len());
    }
    assert(soft_flags(t, c) =~= open_flags(t, c));
}

/// Flags that are the opposite of marks count as many true entries as the
/// marks count false ones.
pub proof fn lemma_count_negate(marks: Seq<bool>, flags: Seq<bool>)
    requires
        marks.len() == flags.len(),
        forall|p: int| 0 <= p < marks.len() ==> flags[p] == !marks[p],
    ensures
        count_eq(marks, false) == count_eq(flags, true),
    decreases marks.len(),
{
    if marks.len() > 0 {
        lemma_count_negate(marks.drop_last(), flags.drop_last());
    }
}

/// Adding a clause without a true literal keeps the counters right, also
/// after a search: where each counter was the number of true literals of its
/// clause, it is so after the clause has been added, the new clause
/// included.
pub proof fn law_add_keeps_counts(s: State, cl: Seq<Lit>)
    requires
        s.base_inv(),
        vars_after(s.value.len(), cl) <= usize::MAX,
        forall|p: int| 0 <= p < cl.len() ==> (#[trigger] cl[p]).var.num < vars_after(
            s.value.len(),
            cl,
        ),
        no_true(grown(s, vars_after(s.value.len(), cl)), cl),
    ensures
        ingest(s, cl).sat_ok(),
{
    let n = vars_after(s.value.len(), cl);
    lemma_grown_base(s, n);
    let g = grown(s, n);
    if cl.len() == 0 {
        lemma_sat_recorded(s, ingest(s, cl), cl);
    } else if cl.len() == 1 && g.value[cl[0].var_index()] == VarValue::VUndef {
        let v = cl[0].var_index();
        crate::fresh::lemma_set_value(g, v, cl[0].polarity());
        let w = crate::fresh::with_value(g, v, cl[0].polarity());
        assert(no_true(w, cl)) by {
            assert forall|p: int| 0 <= p < cl.len() implies !w.lit_true(#[trigger] cl[p]) by {
                assert(!g.lit_true(cl[p]));
            }
        }
        lemma_sat_recorded(w, ingest(s, cl), cl);
    } else if cl.len() == 1 && g.value[cl[0].var_index()] != cl[0].negated().polarity() {
    } else {
        lemma_sat_recorded(g, ingest(s, cl), cl);
    }
}

/// Making variables keeps the invariants of a solver that is not stale.
pub proof fn lemma_grown_base(s: State, n: nat)
    requires
        s.base_inv(),
        n <= usize::MAX,
    ensures
        grown(s, n).base_inv(),
        grown(s, n).value.len() == (if n <= s.value.len() {
            s.value.len()
        } else {
            n
        }),
    decreases n,
{
    if n > s.value.len() {
        lemma_grown_base(s, (n - 1) as nat);
        crate::ingest::lemma_new_var(grown(s, (n - 1) as nat));
    }
}

/// The count of unsatisfied clauses is the number of indexed clauses whose
/// counter is zero; in a solver whose status is true every clause is indexed.
pub proof fn law_unsat_count(s: Solver)
    requires
        s.inv(),
    ensures
        s.state().unsat == count_eq(s.state().zero_flags(), true),
        s.status() ==> s.state().indexed == s.formula().len(),
{
}

/// A propagated variable has a value.
pub proof fn law_propagated_bound(s: Solver, v: int)
    requires
        s.inv(),
        0 <= v < s.num_vars(),
        s.state().propagated[v],
    ensures
        s.model()[v] != VarValue::VUndef,
{
}

/// After a reset nothing is propagated, every counter is zero, no literal is
/// marked, and a variable has a value only where a clause of one literal
/// gives it that value.
pub proof fn law_reset(pre: Solver, post: Solver)
    requires
        pre.inv(),
        post.inv(),
        was_reset(pre, post),
    ensures
        forall|v: int| 0 <= v < post.num_vars() ==> !#[trigger] post.state().propagated[v],
        forall|c: int| 0 <= c < post.formula().len() ==> #[trigger] post.state().sat[c] == 0,
        forall|c: int|
            0 <= c < post.formula().len() ==> #[trigger] post.state().live(c)
                == post.formula()[c].len(),
        forall|v: int|
            0 <= v < post.num_vars() && #[trigger] post.model()[v] != VarValue::VUndef
                ==> exists|c: int|
                0 <= c < post.formula().len() && (#[trigger] post.formula()[c]).len() == 1
                    && post.formula()[c][0].var_index() == v && post.formula()[c][0].polarity()
                    == post.model()[v],
{
    let t = post.state();
    lemma_unit_values(pre.formula(), pre.formula().len(), pre.num_vars());
    assert(t == blanked(pre.state()));
    let uv = crate::state::unit_values(pre.formula(), pre.formula().len(), pre.num_vars());
    assert(post.model() == uv);
    assert forall|v: int|
        0 <= v < post.num_vars() && #[trigger] post.model()[v] != VarValue::VUndef implies exists|
        c: int,
    |
        0 <= c < post.formula().len() && (#[trigger] post.formula()[c]).len() == 1
            && post.formula()[c][0].var_index() == v && post.formula()[c][0].polarity()
            == post.model()[v] by {
        assert(uv[v] != VarValue::VUndef);
        let c = choose|c: int|
            0 <= c < pre.formula().len() && (#[trigger] pre.formula()[c]).len() == 1
                && pre.formula()[c][0].var_index() == v && pre.formula()[c][0].polarity() == uv[v];
        assert(post.formula()[c].len() == 1);
    }
    assert forall|c: int| 0 <= c < post.formula().len() implies #[trigger] t.live(c)
        == post.formula()[c].len() by {
        assert(t.marks[c].len() == t.lits[c].len());
        assert forall|p: int| 0 <= p < t.marks[c].len() implies t.marks[c][p] == false by {
            assert(!t.marks[c][p]);
        }
        lemma_count_full(t.marks[c], false);
    }
}

/// Propagate and undo: in a state between two steps of a search, carrying
/// the value of a variable through the clauses and taking it back out of
/// them restores every counter, every mark and every expected value. So it
/// does where propagations of other variables, taken back in reverse order,
/// lie between, as each of them restores the state in which it started.
pub proof fn law_undo_restores(s0: State, var: int, pol: bool)
    requires
        0 <= var < s0.value.len(),
        pass_pre(s0, lit_of(var, pol)),
    ensures
        carried(carried(s0, var, pol, true), var, pol, false) == s0,
{
    lemma_carried_back(s0, var, pol);
}

/// A search answers by the formula alone: two searches on solvers with the
/// same formula, whose status is honest, give the same result.
pub proof fn law_solve_answer(a0: Solver, a1: Solver, ra: bool, b0: Solver, b1: Solver, rb: bool)
    requires
        solved(a0, a1, ra),
        solved(b0, b1, rb),
        a0.honest(),
        b0.honest(),
        a0.formula() == b0.formula(),
    ensures
        ra == rb,
{
}

/// A search is determined by the state of the solver: two searches on
/// solvers in the same state, both stale or both not, give the same result
/// and leave the same state, and so the same values.
pub proof fn law_solve_determined(a0: Solver, a1: Solver, ra: bool, b0: Solver, b1: Solver, rb: bool)
    requires
        solved(a0, a1, ra),
        solved(b0, b1, rb),
        a0.state() == b0.state(),
        a0.stale() == b0.stale(),
    ensures
        ra == rb,
        a1.state() == b1.state(),
        a1.model() == b1.model(),
{
    lemma_search_determined(a0.start(), a1.state(), ra, b1.state(), rb);
}

/// Two solvers on which no search has run, with the same formula over the
/// same variables and the status true, are in the same state.
pub proof fn law_fresh_determined(a: Solver, b: Solver)
    requires
        a.inv(),
        b.inv(),
        a.fresh(),
        b.fresh(),
        a.status(),
        b.status(),
        a.formula() == b.formula(),
        a.num_vars() == b.num_vars(),
    ensures
        a.state() == b.state(),
{
    let s = a.state();
    let t = b.state();
    lemma_map_determined(s, t);
    assert(s.propagated =~= t.propagated);
    assert(s.sat =~= t.sat);
    assert(s.expected =~= t.expected);
    assert forall|c: int| 0 <= c < s.marks.len() implies s.marks[c] == t.marks[c] by {
        assert(s.marks[c].len() == s.lits[c].len());
        assert(t.marks[c].len() == t.lits[c].len());
        assert forall|p: int| 0 <= p < s.marks[c].len() implies s.marks[c][p] == t.marks[c][p] by {
            assert(!s.marks[c][p]);
            assert(!t.marks[c][p]);
        }
        assert(s.marks[c] =~= t.marks[c]);
    }
    assert(s.marks =~= t.marks);
}

/// A search that says yes leaves values that satisfy the formula.
pub proof fn law_sound(pre: Solver, post: Solver, r: bool)
    requires
        solved(pre, post, r),
        r,
    ensures
        model_satisfies(pre.formula(), post.model()),
{
}

/// A search that says no is right, where the status was honest before it,
/// and so wherever the status was true: no assignment of true and false to
/// the variables satisfies the formula.
pub proof fn law_complete(pre: Solver, post: Solver, r: bool, m: Assignment)
    requires
        solved(pre, post, r),
        pre.honest(),
        !r,
    ensures
        !models(pre.formula(), m),
{
}

/// A reset of a solver on which no search has run, and whose status is true,
/// changes nothing.
pub proof fn law_reset_fresh(pre: Solver, post: Solver)
    requires
        was_reset(pre, post),
        pre.fresh(),
        pre.status(),
    ensures
        post.state() == pre.state(),
{
}

/// A search, a reset and a second search: where the first search says yes,
/// so does the second.
pub proof fn law_solve_reset_solve(s0: Solver, s1: Solver, s2: Solver, s3: Solver, r1: bool, r2: bool)
    requires
        solved(s0, s1, r1),
        was_reset(s1, s2),
        solved(s2, s3, r2),
    ensures
        r1 == r2,
{
}

} // verus!
