//! States before a search, and changes of a state that keep its invariants:
//! a new value for a variable that is not propagated.

use crate::count::{count_eq, first_eq, lemma_count_full, lemma_count_zero, lemma_first_eq};
use crate::formula::{Assignment, clause_holds, extends, lit_holds, models};
use crate::lit::{Lit, VarValue};
use crate::state::{State, unit_values};
use vstd::prelude::*;

verus! {

/// A blank state with the right shape and occurrence lists has the
/// invariants of every state.
pub proof fn lemma_blank_base(s: State)
    requires
        s.shape(),
        s.map_ok(),
        s.blank(),
    ensures
        s.base_inv(),
{
    assert forall|c: int| 0 <= c < s.lits.len() implies #[trigger] s.sat[c] == count_eq(
        s.true_flags(c),
        true,
    ) by {
        assert forall|p: int| 0 <= p < s.true_flags(c).len() implies s.true_flags(c)[p] != true by {
            assert(s.lits[c][p].var.num < s.value.len());
        }
        lemma_count_zero(s.true_flags(c), true);
    }
    lemma_count_full(s.zero_flags(), true);
}

/// A blank state without an empty clause, all of whose clauses are indexed,
/// has the invariants of a state between two steps of a search.
pub proof fn lemma_blank_core(s: State)
    requires
        s.shape(),
        s.map_ok(),
        s.blank(),
        s.all_nonempty(),
        s.indexed == s.lits.len(),
    ensures
        s.core_inv(),
{
    lemma_blank_base(s);
    assert forall|c: int| 0 <= c < s.lits.len() implies #[trigger] s.live(c) == s.lits[c].len() by {
        assert(s.marks[c].len() == s.lits[c].len());
        assert forall|p: int| 0 <= p < s.marks[c].len() implies s.marks[c][p] == false by {
            assert(!s.marks[c][p]);
        }
        lemma_count_full(s.marks[c], false);
    }
    assert(s.marks_exact()) by {
        assert forall|c: int, p: int|
            0 <= c < s.lits.len() && 0 <= p < s.lits[c].len() && s.sat[c] == 0 && s.lit_false(
                s.lits[c][p],
            ) implies #[trigger] s.marks[c][p] by {
            assert(s.lits[c][p].var.num < s.value.len());
        }
    }
    assert(s.expected_ok(-1)) by {
        assert forall|v: int| 0 <= v < s.value.len() implies (#[trigger] s.expected[v]).1
            == count_eq(s.target_flags(v, -1), true) by {
            let f = s.target_flags(v, -1);
            assert forall|c: int| 0 <= c < f.len() implies f[c] != true by {
                assert(s.live(c) == s.lits[c].len());
            }
            lemma_count_zero(f, true);
        }
    }
    assert(s.expected_val_ok()) by {
        assert forall|c: int|
            0 <= c < s.lits.len() && s.lits[c].len() >= 2 && #[trigger] s.live(c)
                == 1 implies s.first(c).polarity() == s.expected[s.first(c).var_index()].0 by {
            assert(s.live(c) == s.lits[c].len());
        }
    }
    assert(s.no_empty()) by {
        assert forall|c: int| 0 <= c < s.lits.len() implies #[trigger] s.live(c) >= 1 by {
            assert(s.live(c) == s.lits[c].len());
            assert(s.lits[c].len() > 0);
        }
    }
}

/// `unit_values` has one entry for each variable, and each decided entry is
/// the polarity of the literal of a clause of one literal.
pub proof fn lemma_unit_values(lits: Seq<Seq<Lit>>, k: nat, n: nat)
    requires
        k <= lits.len(),
    ensures
        unit_values(lits, k, n).len() == n,
        forall|v: int|
            0 <= v < n && #[trigger] unit_values(lits, k, n)[v] != VarValue::VUndef ==> exists|
                c: int,
            |
                0 <= c < k && (#[trigger] lits[c]).len() == 1 && lits[c][0].var_index() == v
                    && lits[c][0].polarity() == unit_values(lits, k, n)[v],
    decreases k,
{
    if k > 0 {
        lemma_unit_values(lits, (k - 1) as nat, n);
        let prev = unit_values(lits, (k - 1) as nat, n);
        let cur = unit_values(lits, k, n);
        let cl = lits[k - 1];
        assert forall|v: int| 0 <= v < n && #[trigger] cur[v] != VarValue::VUndef implies exists|
            c: int,
        |
            0 <= c < k && (#[trigger] lits[c]).len() == 1 && lits[c][0].var_index() == v
                && lits[c][0].polarity() == cur[v] by {
            if cl.len() == 1 && cl[0].var_index() < n && cl[0].var_index() == v {
                assert(lits[k - 1].len() == 1);
            } else {
                assert(cur[v] == prev[v]);
                let c = choose|c: int|
                    0 <= c < k - 1 && (#[trigger] lits[c]).len() == 1 && lits[c][0].var_index()
                        == v && lits[c][0].polarity() == prev[v];
                assert(lits[c].len() == 1);
            }
        }
    }
}

/// Every assignment that satisfies the formula agrees with `unit_values`.
pub proof fn lemma_unit_values_grounded(lits: Seq<Seq<Lit>>, k: nat, n: nat)
    requires
        k <= lits.len(),
    ensures
        forall|m: Assignment| #[trigger] models(lits, m) ==> extends(m, unit_values(lits, k, n)),
{
    lemma_unit_values(lits, k, n);
    let uv = unit_values(lits, k, n);
    assert forall|m: Assignment| #[trigger] models(lits, m) implies extends(m, uv) by {
        assert forall|v: int| 0 <= v < uv.len() implies (#[trigger] uv[v] == VarValue::VTrue
            ==> m(v)) && (uv[v] == VarValue::VFalse ==> !m(v)) by {
            if uv[v] != VarValue::VUndef {
                let c = choose|c: int|
                    0 <= c < k && (#[trigger] lits[c]).len() == 1 && lits[c][0].var_index() == v
                        && lits[c][0].polarity() == uv[v];
                assert(clause_holds(lits[c], m));
                let p = choose|p: int| 0 <= p < lits[c].len() && lit_holds(#[trigger] lits[c][p], m);
                assert(p == 0);
            }
        }
    }
}

/// The state in which variable `v` has value `x`.
pub open spec fn with_value(s: State, v: int, x: VarValue) -> State {
    State { value: s.value.update(v, x), ..s }
}

/// A new value for a variable that is not propagated leaves the propagated
/// values and every invariant as they are.
pub proof fn lemma_set_value(s: State, v: int, x: VarValue)
    requires
        s.shape(),
        0 <= v < s.value.len(),
        !s.propagated[v],
    ensures
        with_value(s, v, x).shape(),
        with_value(s, v, x).assigned() == s.assigned(),
        s.base_inv() ==> with_value(s, v, x).base_inv(),
        s.core_inv() ==> with_value(s, v, x).core_inv(),
{
    let t = with_value(s, v, x);
    assert(t.assigned() =~= s.assigned());
    assert forall|l: Lit| l.var.num < s.value.len() implies t.lit_true(l) == s.lit_true(l)
        && t.lit_false(l) == s.lit_false(l) by {}
    assert forall|c: int| 0 <= c < s.lits.len() implies #[trigger] t.true_flags(c)
        == s.true_flags(c) by {
        assert forall|p: int| 0 <= p < s.lits[c].len() implies t.true_flags(c)[p] == s.true_flags(
            c,
        )[p] by {
            assert(s.lits[c][p].var.num < s.value.len());
        }
        assert(t.true_flags(c) =~= s.true_flags(c));
    }
    assert(t.zero_flags() =~= s.zero_flags());
    if s.base_inv() {
        assert(t.sat_ok()) by {
            assert forall|c: int| 0 <= c < t.lits.len() implies #[trigger] t.sat[c] == count_eq(
                t.true_flags(c),
                true,
            ) by {
                assert(s.sat[c] == count_eq(s.true_flags(c), true));
                assert(t.true_flags(c) == s.true_flags(c));
            }
        }
        assert(t.marks_weak()) by {
            assert forall|c: int, p: int|
                0 <= c < t.lits.len() && 0 <= p < t.lits[c].len()
                    && #[trigger] t.marks[c][p] implies t.lit_false(t.lits[c][p]) by {
                assert(s.marks[c][p]);
                assert(s.lits[c][p].var.num < s.value.len());
            }
        }
        assert(t.map_ok()) by {
            assert forall|w: int| 0 <= w < t.value.len() implies #[trigger] t.var_map_ok(w) by {
                assert(s.var_map_ok(w));
            }
        }
        assert(t.bound_ok()) by {
            assert forall|w: int| 0 <= w < t.value.len() && #[trigger] t.propagated[w] implies t.value[w]
                != VarValue::VUndef by {
                assert(s.propagated[w]);
            }
        }
    }
    if s.core_inv() {
        assert(t.marks_exact()) by {
            assert forall|c: int, p: int|
                0 <= c < t.lits.len() && 0 <= p < t.lits[c].len() && t.sat[c] == 0 && t.lit_false(
                    t.lits[c][p],
                ) implies #[trigger] t.marks[c][p] by {
                assert(s.lits[c][p].var.num < s.value.len());
                assert(s.lit_false(s.lits[c][p]));
                assert(s.marks[c][p]);
            }
        }
        assert(t.expected_ok(-1)) by {
            assert forall|w: int| 0 <= w < t.value.len() implies (#[trigger] t.expected[w]).1
                == count_eq(t.target_flags(w, -1), true) by {
                assert(t.target_flags(w, -1) =~= s.target_flags(w, -1));
                assert(s.expected[w].1 == count_eq(s.target_flags(w, -1), true));
            }
        }
        assert(t.expected_val_ok()) by {
            assert forall|c: int|
                0 <= c < t.lits.len() && t.lits[c].len() >= 2 && #[trigger] t.live(c)
                    == 1 implies t.first(c).polarity() == t.expected[t.first(c).var_index()].0 by {
                assert(s.live(c) == 1);
            }
            assert forall|w: int| 0 <= w < t.value.len() implies ((#[trigger] t.expected[w]).1 == 0
                <==> t.expected[w].0 == VarValue::VUndef) by {
                assert(s.expected[w].1 >= 0);
            }
        }
        assert(t.no_empty()) by {
            assert forall|c: int| 0 <= c < t.lits.len() implies #[trigger] t.live(c) >= 1 by {
                assert(s.live(c) >= 1);
            }
        }
    }
}

/// In a state between two steps of a search, the variable of the one
/// unmarked literal of a clause without a true literal is not propagated.
pub proof fn lemma_unit_var_free(s: State, c: int)
    requires
        s.core_inv(),
        0 <= c < s.lits.len(),
        s.sat[c] == 0,
        s.live(c) >= 1,
    ensures
        0 <= first_eq(s.marks[c], false) < s.lits[c].len(),
        0 <= s.first(c).var_index() < s.value.len(),
        !s.propagated[s.first(c).var_index()],
{
    lemma_first_eq(s.marks[c], false);
    let k = first_eq(s.marks[c], false);
    assert(s.marks[c].len() == s.lits[c].len());
    let l = s.lits[c][k];
    assert(l.var.num < s.value.len());
    if s.propagated[l.var_index()] {
        assert(s.value[l.var_index()] != VarValue::VUndef);
        if s.value[l.var_index()] == l.polarity() {
            assert(s.true_flags(c)[k]);
            crate::count::lemma_count_pos(s.true_flags(c), true, k);
            assert(s.sat[c] == count_eq(s.true_flags(c), true));
        } else {
            assert(s.lit_false(l));
            assert(s.marks[c][k]);
        }
    }
}

/// An assignment that agrees with the values agrees with the propagated
/// values.
pub proof fn lemma_extends_assigned(s: State, m: Assignment)
    requires
        s.propagated.len() == s.value.len(),
        extends(m, s.value),
    ensures
        extends(m, s.assigned()),
{
    let a = s.assigned();
    assert forall|v: int| 0 <= v < a.len() implies (#[trigger] a[v] == VarValue::VTrue ==> m(v))
        && (a[v] == VarValue::VFalse ==> !m(v)) by {
        if s.propagated[v] {
            assert(a[v] == s.value[v]);
        }
    }
}

/// Where every assignment that satisfies the formula agrees with the
/// values, and none that agrees with the propagated values satisfies it,
/// the formula is unsatisfiable.
pub proof fn lemma_grounded_refuted(s: State)
    requires
        s.propagated.len() == s.value.len(),
        s.grounded(),
        !crate::formula::sat_under(s.lits, s.assigned()),
    ensures
        !crate::formula::satisfiable(s.lits),
{
    assert forall|m: Assignment| !#[trigger] models(s.lits, m) by {
        if models(s.lits, m) {
            lemma_extends_assigned(s, m);
        }
    }
}

/// The value that a clause with one unmarked literal and no true literal
/// asks for is one that every satisfying assignment gives.
pub proof fn lemma_unit_value_grounded(s: State, c: int)
    requires
        s.core_inv(),
        s.grounded(),
        0 <= c < s.lits.len(),
        s.sat[c] == 0,
        s.live(c) == 1,
    ensures
        with_value(s, s.first(c).var_index(), s.first(c).polarity()).grounded(),
{
    lemma_unit_var_free(s, c);
    let l = s.first(c);
    let t = with_value(s, l.var_index(), l.polarity());
    assert forall|m: Assignment| #[trigger] models(t.lits, m) implies extends(m, t.value) by {
        assert(extends(m, s.value));
        lemma_extends_assigned(s, m);
        crate::formula::lemma_unit_forces(s, c, m);
        assert forall|v: int| 0 <= v < t.value.len() implies (#[trigger] t.value[v]
            == VarValue::VTrue ==> m(v)) && (t.value[v] == VarValue::VFalse ==> !m(v)) by {
            if v != l.var_index() {
                assert(t.value[v] == s.value[v]);
            }
        }
    }
}

/// The invariants of every state do not depend on the status.
pub proof fn lemma_status_frame(s: State, status: bool)
    requires
        s.base_inv(),
    ensures
        (State { status, ..s }).base_inv(),
{
    let t = State { status, ..s };
    assert(t.zero_flags() =~= s.zero_flags());
    assert forall|c: int| 0 <= c < t.lits.len() implies #[trigger] t.sat[c] == count_eq(
        t.true_flags(c),
        true,
    ) by {
        assert(t.true_flags(c) =~= s.true_flags(c));
        assert(s.sat[c] == count_eq(s.true_flags(c), true));
    }
    assert forall|w: int| 0 <= w < t.value.len() implies #[trigger] t.var_map_ok(w) by {
        assert(s.var_map_ok(w));
    }
    assert(t.marks_weak()) by {
        assert forall|c: int, p: int|
            0 <= c < t.lits.len() && 0 <= p < t.lits[c].len()
                && #[trigger] t.marks[c][p] implies t.lit_false(t.lits[c][p]) by {
            assert(s.marks[c][p]);
        }
    }
}

/// Where every assignment that satisfies the formula agrees with the
/// values, a satisfiable formula has a satisfying assignment that agrees
/// with the propagated values.
pub proof fn lemma_grounded_start(s: State)
    requires
        s.propagated.len() == s.value.len(),
        s.grounded(),
    ensures
        crate::formula::satisfiable(s.lits) ==> crate::formula::sat_under(s.lits, s.assigned()),
{
    if crate::formula::satisfiable(s.lits) {
        let m = choose|m: Assignment| #[trigger] models(s.lits, m);
        lemma_extends_assigned(s, m);
    }
}

/// Values that keep the values of a state keep its propagated values.
pub proof fn lemma_within_assigned(s: State, w: Seq<VarValue>)
    requires
        s.propagated.len() == s.value.len(),
        crate::formula::within(s.value, w),
    ensures
        crate::formula::within(s.assigned(), w),
{
    let a = s.assigned();
    assert forall|v: int| 0 <= v < a.len() && #[trigger] a[v] != VarValue::VUndef implies w[v]
        == a[v] by {
        assert(s.value[v] != VarValue::VUndef);
    }
}

/// Where every variable with a value is propagated, and no clause without
/// a true literal has exactly one unmarked literal, the values are closed
/// under unit propagation.
pub proof fn lemma_fixpoint_closed(s: State)
    requires
        s.core_inv(),
        s.settled(),
        forall|c: int| 0 <= c < s.lits.len() ==> !(#[trigger] s.sat[c] == 0 && s.live(c) == 1),
    ensures
        crate::formula::closed(s.lits, s.value),
{
    assert forall|c: int, p: int|
        0 <= c < s.lits.len() && 0 <= p < s.lits[c].len() && #[trigger] crate::formula::others_false(
            s.lits[c],
            p,
            s.value,
        ) implies crate::formula::lit_true_in(s.lits[c][p], s.value) by {
        let l = s.lits[c][p];
        assert(l.var.num < s.value.len());
        if s.value[l.var_index()] != l.polarity() {
            assert(s.marks[c].len() == s.lits[c].len());
            assert forall|q: int| 0 <= q < s.lits[c].len() implies !#[trigger] s.true_flags(c)[q] by {
                if q != p {
                    assert(crate::formula::lit_false_in(s.lits[c][q], s.value));
                }
            }
            lemma_count_zero(s.true_flags(c), true);
            assert(s.sat[c] == count_eq(s.true_flags(c), true));
            assert forall|q: int| 0 <= q < s.lits[c].len() && q != p implies #[trigger] s.marks[c][q] by {
                assert(crate::formula::lit_false_in(s.lits[c][q], s.value));
                assert(s.value[s.lits[c][q].var_index()] != VarValue::VUndef);
                assert(s.propagated[s.lits[c][q].var_index()]);
                assert(s.lit_false(s.lits[c][q]));
            }
            let m2 = s.marks[c].update(p, true);
            assert forall|q: int| 0 <= q < m2.len() implies m2[q] != false by {
                if q != p {
                    assert(s.marks[c][q]);
                }
            }
            lemma_count_zero(m2, false);
            crate::count::lemma_count_update(s.marks[c], p, true, false);
            assert(s.live(c) >= 1);
            assert(s.live(c) == 1);
            assert(false);
        }
    }
}

} // verus!
