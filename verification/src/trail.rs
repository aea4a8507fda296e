//! The history of a search: the decisions taken, the states between them,
//! why a forced decision loses no satisfying assignment, and the measure by
//! which a search ends.

use crate::count::{count_eq, lemma_count_zero};
use crate::formula::{
    Assignment, clause_holds, clause_true_in, extends, lemma_unit_forces, lit_holds, lit_true_in,
    model_satisfies, models, sat_under, satisfiable,
};
use crate::fresh::{lemma_set_value, lemma_unit_var_free, with_value};
use crate::lit::{Lit, VarValue};
use crate::passes::{forward_of, lemma_asker, pass_pre};
use crate::state::{lit_of, State};
use vstd::prelude::*;

verus! {

/// A decision and, where the other polarity is still to be tried, the
/// literal of that polarity.
pub type Frame = (Lit, Option<Lit>);

/// Decision `f` led from state `a` to state `b`: in `a` its variable had no
/// value, `b` is what the forward pass made of `a` with the value; a decision
/// without an alternative loses no satisfying assignment.
pub open spec fn frame_ok(f: Frame, a: State, b: State) -> bool {
    let l = f.0;
    let v = l.var_index();
    &&& a.core_inv()
    &&& a.settled()
    &&& a.unsat > 0
    &&& 0 <= v < a.value.len()
    &&& !a.propagated[v]
    &&& a.value[v] == VarValue::VUndef
    &&& forward_of(b, with_value(a, v, l.polarity()), l)
    &&& f.1 is None ==> (sat_under(a.lits, a.assigned()) ==> sat_under(a.lits, b.assigned()))
    &&& f.1 is Some ==> f.1 == Some(l.negated())
}

/// The states `chain` lie between the decisions `hist`, the first before
/// the first decision and the last after the last.
pub open spec fn chain_ok(hist: Seq<Frame>, chain: Seq<State>) -> bool {
    &&& chain.len() == hist.len() + 1
    &&& forall|k: int| 0 <= k < hist.len() ==> frame_ok(#[trigger] hist[k], chain[k], chain[k + 1])
}

/// 4 to the power `e`; 1 for a negative `e`.
pub open spec fn pow4(e: int) -> int
    decreases e,
{
    if e <= 0 {
        1
    } else {
        4 * pow4(e - 1)
    }
}

/// The weight of the decisions `hist`, of which the last stands at place
/// `e + 1`: a decision with an alternative weighs twice 4 to the power of
/// its place, one without weighs nothing.
pub open spec fn weight(hist: Seq<Frame>, e: int) -> int
    decreases hist.len(),
{
    if hist.len() == 0 {
        0
    } else {
        weight(hist.drop_last(), e + 1) + if hist.last().1 is Some {
            2 * pow4(e + 1)
        } else {
            0int
        }
    }
}

/// The measure of a search that stands behind the decisions `hist` with `e`
/// variables not propagated; `pending` tells that the next decision is the
/// alternative of one that failed.
pub open spec fn measure(hist: Seq<Frame>, e: int, pending: bool) -> int {
    weight(hist, e) + (if pending {
        2int
    } else {
        4int
    }) * pow4(e) - 1
}

/// Powers of 4 are positive.
pub proof fn lemma_pow4_pos(e: int)
    ensures
        pow4(e) >= 1,
    decreases e,
{
    if e > 0 {
        lemma_pow4_pos(e - 1);
    }
}

/// A weight is not negative.
pub proof fn lemma_weight_nonneg(hist: Seq<Frame>, e: int)
    ensures
        weight(hist, e) >= 0,
    decreases hist.len(),
{
    if hist.len() > 0 {
        lemma_weight_nonneg(hist.drop_last(), e + 1);
        lemma_pow4_pos(e + 1);
    }
}

/// The weight after one decision more.
pub proof fn lemma_weight_push(hist: Seq<Frame>, f: Frame, e: int)
    ensures
        weight(hist.push(f), e) == weight(hist, e + 1) + if f.1 is Some {
            2 * pow4(e + 1)
        } else {
            0int
        },
{
    assert(hist.push(f).drop_last() =~= hist);
}

/// Where no clause holds the positive literal of a variable that is not
/// propagated, giving the variable the value false loses no satisfying
/// assignment; and likewise for the negative literal and the value true.
pub proof fn lemma_pure(s: State, v: int, pol: bool)
    requires
        s.core_inv(),
        0 <= v < s.value.len(),
        !s.propagated[v],
        (if pol {
            s.neg[v]
        } else {
            s.pos[v]
        }).len() == 0,
    ensures
        sat_under(s.lits, s.assigned()) ==> sat_under(
            s.lits,
            s.assigned().update(v, lit_of(v, pol).polarity()),
        ),
{
    let a = s.assigned();
    let x = lit_of(v, pol).polarity();
    if sat_under(s.lits, a) {
        let m = choose|m: Assignment| extends(m, a) && #[trigger] models(s.lits, m);
        let m2: Assignment = |w: int|
            if w == v {
                pol
            } else {
                m(w)
            };
        assert(s.var_map_ok(v));
        assert forall|c: int| 0 <= c < s.lits.len() implies clause_holds(#[trigger] s.lits[c], m2) by {
            assert(clause_holds(s.lits[c], m));
            let p = choose|p: int| 0 <= p < s.lits[c].len() && lit_holds(#[trigger] s.lits[c][p], m);
            let l = s.lits[c][p];
            assert(l.var.num < s.value.len());
            if l.var_index() == v {
                if l.positive != pol {
                    assert(l == lit_of(v, !pol));
                    assert(s.is_pos(c, p));
                    let list = if pol {
                        s.neg[v]
                    } else {
                        s.pos[v]
                    };
                    assert(crate::state::listed(list, c, p));
                }
            }
            assert(lit_holds(s.lits[c][p], m2));
        }
        assert(extends(m2, a.update(v, x))) by {
            let a2 = a.update(v, x);
            assert forall|w: int| 0 <= w < a2.len() implies (#[trigger] a2[w] == VarValue::VTrue
                ==> m2(w)) && (a2[w] == VarValue::VFalse ==> !m2(w)) by {
                if w != v {
                    assert(a2[w] == a[w]);
                }
            }
        }
        assert(models(s.lits, m2));
    }
}

/// Giving a variable that is not propagated the value that is expected of
/// it loses no satisfying assignment.
pub proof fn lemma_expected_forced(s: State, v: int)
    requires
        s.core_inv(),
        0 <= v < s.value.len(),
        !s.propagated[v],
        s.expected[v].0 != VarValue::VUndef,
    ensures
        sat_under(s.lits, s.assigned()) ==> sat_under(
            s.lits,
            s.assigned().update(v, s.expected[v].0),
        ),
{
    let a = s.assigned();
    let x = s.expected[v].0;
    if sat_under(s.lits, a) {
        let m = choose|m: Assignment| extends(m, a) && #[trigger] models(s.lits, m);
        assert(s.expected[v].1 != 0);
        let c = lemma_asker(s, v, -1);
        assert(s.live(c) >= 1);
        assert(s.live(c) == 1);
        lemma_unit_forces(s, c, m);
        assert(s.first(c).polarity() == x);
        assert(extends(m, a.update(v, x))) by {
            let a2 = a.update(v, x);
            assert forall|w: int| 0 <= w < a2.len() implies (#[trigger] a2[w] == VarValue::VTrue
                ==> m(w)) && (a2[w] == VarValue::VFalse ==> !m(w)) by {
                if w != v {
                    assert(a2[w] == a[w]);
                }
            }
        }
    }
}

/// Where one value of a variable that is not propagated leaves no
/// satisfying assignment, the other value loses none.
pub proof fn lemma_flip_forced(f: Seq<Seq<Lit>>, a: Seq<VarValue>, v: int, l: Lit)
    requires
        0 <= v < a.len(),
        l.var_index() == v,
        !sat_under(f, a.update(v, l.polarity())),
    ensures
        sat_under(f, a) ==> sat_under(f, a.update(v, l.negated().polarity())),
{
    if sat_under(f, a) {
        let m = choose|m: Assignment| extends(m, a) && #[trigger] models(f, m);
        let a1 = a.update(v, l.polarity());
        let a2 = a.update(v, l.negated().polarity());
        if m(v) == l.positive {
            assert(extends(m, a1)) by {
                assert forall|w: int| 0 <= w < a1.len() implies (#[trigger] a1[w]
                    == VarValue::VTrue ==> m(w)) && (a1[w] == VarValue::VFalse ==> !m(w)) by {
                    if w != v {
                        assert(a1[w] == a[w]);
                    }
                }
            }
        } else {
            assert(extends(m, a2)) by {
                assert forall|w: int| 0 <= w < a2.len() implies (#[trigger] a2[w]
                    == VarValue::VTrue ==> m(w)) && (a2[w] == VarValue::VFalse ==> !m(w)) by {
                    if w != v {
                        assert(a2[w] == a[w]);
                    }
                }
            }
        }
    }
}

/// Where every clause has a true literal, the values satisfy the formula.
pub proof fn lemma_solved(s: State)
    requires
        s.core_inv(),
        s.unsat == 0,
    ensures
        model_satisfies(s.lits, s.value),
        satisfiable(s.lits),
{
    lemma_count_zero(s.zero_flags(), true);
    let m: Assignment = |w: int| 0 <= w < s.value.len() && s.value[w] == VarValue::VTrue;
    assert forall|c: int| 0 <= c < s.lits.len() implies clause_true_in(
        #[trigger] s.lits[c],
        s.value,
    ) && clause_holds(s.lits[c], m) by {
        assert(!s.zero_flags()[c]);
        assert(s.sat[c] == count_eq(s.true_flags(c), true));
        lemma_count_zero(s.true_flags(c), true);
        let p = choose|p: int| 0 <= p < s.true_flags(c).len() && s.true_flags(c)[p] == true;
        let l = s.lits[c][p];
        assert(l.var.num < s.value.len());
        assert(lit_true_in(s.lits[c][p], s.value));
        assert(lit_holds(s.lits[c][p], m));
    }
    assert(models(s.lits, m));
}

/// Where some clause has no true literal, some variable is not propagated.
pub proof fn lemma_free_var(s: State) -> (v: int)
    requires
        s.core_inv(),
        s.unsat > 0,
    ensures
        0 <= v < s.value.len(),
        !s.propagated[v],
{
    lemma_count_zero(s.zero_flags(), true);
    let c = choose|c: int| 0 <= c < s.zero_flags().len() && s.zero_flags()[c] == true;
    assert(s.live(c) >= 1);
    lemma_unit_var_free(s, c);
    s.first(c).var_index()
}

/// What a decision changes between the state before it and the state after
/// its forward pass: the variable has its value and is propagated.
pub proof fn lemma_frame_step(f: Frame, a: State, b: State)
    requires
        frame_ok(f, a, b),
    ensures
        b.lits == a.lits,
        b.value == a.value.update(f.0.var_index(), f.0.polarity()),
        b.propagated == a.propagated.update(f.0.var_index(), true),
        b.assigned() == a.assigned().update(f.0.var_index(), f.0.polarity()),
        count_eq(b.propagated, false) + 1 == count_eq(a.propagated, false),
        pass_pre(with_value(a, f.0.var_index(), f.0.polarity()), f.0),
        with_value(with_value(a, f.0.var_index(), f.0.polarity()), f.0.var_index(), VarValue::VUndef)
            == a,
{
    let v = f.0.var_index();
    let x = f.0.polarity();
    lemma_set_value(a, v, x);
    crate::count::lemma_count_update(a.propagated, v, true, false);
    assert(b.assigned() =~= a.assigned().update(v, x));
    assert(a.value.update(v, x).update(v, VarValue::VUndef) =~= a.value);
}

} // verus!
