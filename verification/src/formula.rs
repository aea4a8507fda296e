//! What it means for an assignment to satisfy a formula, and the reasoning
//! steps that a search rests on.

use crate::count::{lemma_count_one, lemma_count_zero, lemma_first_eq};
use crate::lit::{Lit, VarValue};
use crate::state::State;
use vstd::prelude::*;

verus! {

/// An assignment of true or false to every variable index.
pub type Assignment = spec_fn(int) -> bool;

/// The literal is true under the assignment `m`.
pub open spec fn lit_holds(l: Lit, m: Assignment) -> bool {
    m(l.var_index()) == l.positive
}

/// Some literal of the clause is true under `m`.
pub open spec fn clause_holds(cl: Seq<Lit>, m: Assignment) -> bool {
    exists|p: int| 0 <= p < cl.len() && lit_holds(#[trigger] cl[p], m)
}

/// Every clause of the formula holds under `m`.
pub open spec fn models(f: Seq<Seq<Lit>>, m: Assignment) -> bool {
    forall|c: int| 0 <= c < f.len() ==> clause_holds(#[trigger] f[c], m)
}

/// Some assignment of true or false to the variables satisfies the formula.
pub open spec fn satisfiable(f: Seq<Seq<Lit>>) -> bool {
    exists|m: Assignment| #[trigger] models(f, m)
}

/// The assignment `m` agrees with the partial assignment `a` wherever `a`
/// is decided.
pub open spec fn extends(m: Assignment, a: Seq<VarValue>) -> bool {
    forall|v: int|
        0 <= v < a.len() ==> (#[trigger] a[v] == VarValue::VTrue ==> m(v)) && (a[v]
            == VarValue::VFalse ==> !m(v))
}

/// Some assignment that agrees with `a` satisfies the formula.
pub open spec fn sat_under(f: Seq<Seq<Lit>>, a: Seq<VarValue>) -> bool {
    exists|m: Assignment| extends(m, a) && #[trigger] models(f, m)
}

/// The variable of the literal has the literal's polarity as its value in
/// `values`.
pub open spec fn lit_true_in(l: Lit, values: Seq<VarValue>) -> bool {
    0 <= l.var_index() < values.len() && values[l.var_index()] == l.polarity()
}

/// Some literal of the clause is true in `values`.
pub open spec fn clause_true_in(cl: Seq<Lit>, values: Seq<VarValue>) -> bool {
    exists|p: int| 0 <= p < cl.len() && lit_true_in(#[trigger] cl[p], values)
}

/// Every clause has a literal whose variable has the literal's polarity as
/// its value in `values`.
pub open spec fn model_satisfies(f: Seq<Seq<Lit>>, values: Seq<VarValue>) -> bool {
    forall|c: int| 0 <= c < f.len() ==> clause_true_in(#[trigger] f[c], values)
}

/// Under an assignment that agrees with the propagated values and satisfies
/// the formula, the one unmarked literal of a clause is true.
pub proof fn lemma_unit_forces(s: State, c: int, m: Assignment)
    requires
        s.shape(),
        s.marks_weak(),
        0 <= c < s.lits.len(),
        s.live(c) == 1,
        extends(m, s.assigned()),
        models(s.lits, m),
    ensures
        lit_holds(s.first(c), m),
{
    let a = s.assigned();
    assert(clause_holds(s.lits[c], m));
    let p = choose|p: int| 0 <= p < s.lits[c].len() && lit_holds(#[trigger] s.lits[c][p], m);
    lemma_first_eq(s.marks[c], false);
    let k = crate::count::first_eq(s.marks[c], false);
    lemma_count_one(s.marks[c], false, k);
    if p != k {
        assert(s.marks[c][p]);
        let l = s.lits[c][p];
        assert(s.lit_false(l));
        assert(a[l.var_index()] == l.negated().polarity());
    }
}

/// The variable of the literal has the opposite of the literal's polarity
/// as its value in `values`.
pub open spec fn lit_false_in(l: Lit, values: Seq<VarValue>) -> bool {
    0 <= l.var_index() < values.len() && values[l.var_index()] == l.negated().polarity()
}

/// Every literal of the clause but the one at position `p` is false in
/// `values`.
pub open spec fn others_false(cl: Seq<Lit>, p: int, values: Seq<VarValue>) -> bool {
    forall|q: int| 0 <= q < cl.len() && q != p ==> lit_false_in(#[trigger] cl[q], values)
}

/// The values are closed under unit propagation: a literal is true wherever
/// the other literals of its clause are false.
pub open spec fn closed(f: Seq<Seq<Lit>>, values: Seq<VarValue>) -> bool {
    forall|c: int, p: int|
        0 <= c < f.len() && 0 <= p < f[c].len() && #[trigger] others_false(f[c], p, values)
            ==> lit_true_in(f[c][p], values)
}

/// Every value that `a` decides, `w` decides alike.
pub open spec fn within(a: Seq<VarValue>, w: Seq<VarValue>) -> bool {
    &&& a.len() == w.len()
    &&& forall|v: int| 0 <= v < a.len() && #[trigger] a[v] != VarValue::VUndef ==> w[v] == a[v]
}

/// Unit propagation from the values `a` meets no conflict: some values that
/// are closed under it decide what `a` decides alike.
pub open spec fn up_ok(f: Seq<Seq<Lit>>, a: Seq<VarValue>) -> bool {
    exists|w: Seq<VarValue>| within(a, w) && #[trigger] closed(f, w)
}

/// A clause with a literal, all of whose literals are marked, leaves no
/// values that are closed under unit propagation and keep the propagated
/// values.
pub proof fn lemma_empty_refutes_up(s: State, c: int)
    requires
        s.shape(),
        s.marks_weak(),
        0 <= c < s.lits.len(),
        s.lits[c].len() > 0,
        s.live(c) == 0,
    ensures
        !up_ok(s.lits, s.assigned()),
{
    let a = s.assigned();
    lemma_count_zero(s.marks[c], false);
    assert forall|w: Seq<VarValue>| within(a, w) implies !#[trigger] closed(s.lits, w) by {
        if closed(s.lits, w) {
            assert forall|q: int| 0 <= q < s.lits[c].len() implies lit_false_in(
                #[trigger] s.lits[c][q],
                w,
            ) by {
                assert(s.marks[c][q]);
                let l = s.lits[c][q];
                assert(s.lit_false(l));
                assert(l.var.num < s.value.len());
                assert(a[l.var_index()] == l.negated().polarity());
            }
            assert(others_false(s.lits[c], 0, w));
            assert(lit_true_in(s.lits[c][0], w));
            assert(lit_false_in(s.lits[c][0], w));
        }
    }
}

/// In values that are closed under unit propagation and keep the propagated
/// values, the one unmarked literal of a clause is true.
pub proof fn lemma_unit_forces_up(s: State, c: int, w: Seq<VarValue>)
    requires
        s.shape(),
        s.marks_weak(),
        0 <= c < s.lits.len(),
        s.live(c) == 1,
        within(s.assigned(), w),
        closed(s.lits, w),
    ensures
        lit_true_in(s.first(c), w),
{
    let a = s.assigned();
    lemma_first_eq(s.marks[c], false);
    let k = crate::count::first_eq(s.marks[c], false);
    lemma_count_one(s.marks[c], false, k);
    assert(s.marks[c].len() == s.lits[c].len());
    assert forall|q: int| 0 <= q < s.lits[c].len() && q != k implies lit_false_in(
        #[trigger] s.lits[c][q],
        w,
    ) by {
        assert(s.marks[c][q]);
        let l = s.lits[c][q];
        assert(s.lit_false(l));
        assert(l.var.num < s.value.len());
        assert(a[l.var_index()] == l.negated().polarity());
    }
    assert(others_false(s.lits[c], k, w));
}

/// Two clauses whose one unmarked literals are opposite leave no values
/// that are closed under unit propagation and keep the propagated values.
pub proof fn lemma_units_clash_up(s: State, c: int, d: int)
    requires
        s.shape(),
        s.marks_weak(),
        0 <= c < s.lits.len(),
        0 <= d < s.lits.len(),
        s.live(c) == 1,
        s.live(d) == 1,
        s.first(c).var_index() == s.first(d).var_index(),
        s.first(c).polarity() != s.first(d).polarity(),
    ensures
        !up_ok(s.lits, s.assigned()),
{
    assert forall|w: Seq<VarValue>| within(s.assigned(), w) implies !#[trigger] closed(
        s.lits,
        w,
    ) by {
        if closed(s.lits, w) {
            lemma_unit_forces_up(s, c, w);
            lemma_unit_forces_up(s, d, w);
        }
    }
}

/// An assignment that satisfies the formula gives values that are closed
/// under unit propagation: where unit propagation from `a` meets a conflict,
/// no assignment that agrees with `a` satisfies the formula.
pub proof fn lemma_models_closed(f: Seq<Seq<Lit>>, a: Seq<VarValue>)
    requires
        forall|c: int, p: int|
            0 <= c < f.len() && 0 <= p < f[c].len() ==> (#[trigger] f[c][p]).var.num < a.len(),
        !up_ok(f, a),
    ensures
        !sat_under(f, a),
{
    assert forall|m: Assignment| extends(m, a) implies !#[trigger] models(f, m) by {
        if models(f, m) {
            let w = Seq::new(
                a.len(),
                |v: int|
                    if m(v) {
                        VarValue::VTrue
                    } else {
                        VarValue::VFalse
                    },
            );
            assert(within(a, w));
            assert forall|c: int, p: int|
                0 <= c < f.len() && 0 <= p < f[c].len() && #[trigger] others_false(
                    f[c],
                    p,
                    w,
                ) implies lit_true_in(f[c][p], w) by {
                assert(clause_holds(f[c], m));
                let q = choose|q: int| 0 <= q < f[c].len() && lit_holds(#[trigger] f[c][q], m);
                assert(f[c][q].var.num < a.len());
                if q != p {
                    assert(lit_false_in(f[c][q], w));
                }
            }
            assert(closed(f, w));
        }
    }
}

} // verus!
