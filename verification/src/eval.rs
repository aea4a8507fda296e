//! Judging a formula by trying values: whether given values satisfy a list
//! of clauses, and whether any assignment to a few variables does.

use crate::clause::Clause;
use crate::formula::{
    Assignment, clause_holds, clause_true_in, lit_holds, lit_true_in, model_satisfies, models,
    satisfiable,
};
use crate::lit::{Lit, VarValue};
use crate::solver::lits_of;
use vstd::prelude::*;

verus! {

/// Some unmarked literal of the clause is true in `values`.
pub open spec fn live_true_in(lits: Seq<Lit>, marks: Seq<bool>, values: Seq<VarValue>) -> bool {
    exists|p: int| 0 <= p < lits.len() && !marks[p] && lit_true_in(#[trigger] lits[p], values)
}

/// Every clause has an unmarked literal that is true in `values`.
pub open spec fn all_live_true(clauses: Seq<Clause>, values: Seq<VarValue>) -> bool {
    forall|c: int|
        0 <= c < clauses.len() ==> live_true_in(
            (#[trigger] clauses[c]).lits(),
            clauses[c].marks(),
            values,
        )
}

/// Where no literal is marked, `all_live_true` says that the values satisfy
/// the formula.
pub proof fn lemma_all_live_true(clauses: Seq<Clause>, values: Seq<VarValue>)
    requires
        forall|c: int| 0 <= c < clauses.len() ==> (#[trigger] clauses[c]).unmarked(),
        forall|c: int| 0 <= c < clauses.len() ==> (#[trigger] clauses[c]).wf(),
    ensures
        all_live_true(clauses, values) == model_satisfies(lits_of(clauses), values),
{
    let f = lits_of(clauses);
    if all_live_true(clauses, values) {
        assert forall|c: int| 0 <= c < f.len() implies clause_true_in(#[trigger] f[c], values) by {
            assert(live_true_in(clauses[c].lits(), clauses[c].marks(), values));
        }
    }
    if model_satisfies(f, values) {
        assert forall|c: int| 0 <= c < clauses.len() implies live_true_in(
            (#[trigger] clauses[c]).lits(),
            clauses[c].marks(),
            values,
        ) by {
            assert(clause_true_in(f[c], values));
            let p = choose|p: int| 0 <= p < f[c].len() && lit_true_in(#[trigger] f[c][p], values);
            assert(clauses[c].unmarked());
            assert(!clauses[c].marks()[p]);
            assert(lit_true_in(clauses[c].lits()[p], values));
        }
    }
}

/// Tells whether every clause has an unmarked literal whose variable has the
/// literal's polarity as its value in `model`. A literal of a variable
/// without an entry in `model` does not count.
pub fn verify(clauses: &[Clause], model: &[VarValue]) -> (r: bool)
    requires
        forall|c: int| 0 <= c < clauses@.len() ==> (#[trigger] clauses@[c]).wf(),
    ensures
        r == all_live_true(clauses@, model@),
{
    let mut c: usize = 0;
    while c < clauses.len()
        invariant
            0 <= c <= clauses@.len(),
            forall|d: int| 0 <= d < clauses@.len() ==> (#[trigger] clauses@[d]).wf(),
            forall|d: int|
                0 <= d < c ==> live_true_in(
                    (#[trigger] clauses@[d]).lits(),
                    clauses@[d].marks(),
                    model@,
                ),
        decreases clauses@.len() - c,
    {
        let clause = &clauses[c];
        let n = clause.total();
        let mut result = false;
        let mut p: usize = 0;
        while p < n && !result
            invariant
                0 <= p <= n,
                n == clause.lits().len(),
                clause.wf(),
                result ==> live_true_in(clause.lits(), clause.marks(), model@),
                !result ==> forall|q: int|
                    0 <= q < p ==> !(!clause.marks()[q] && lit_true_in(
                        #[trigger] clause.lits()[q],
                        model@,
                    )),
            decreases n - p + if result {
                0int
            } else {
                1int
            },
        {
            if !clause.is_marked(p) {
                let lit = clause.lit_at(p);
                if lit.var_num() < model.len() && lit.get_value() == model[lit.var_num()] {
                    result = true;
                    assert(lit_true_in(clause.lits()[p as int], model@));
                }
            }
            if !result {
                p += 1;
            }
        }
        if !result {
            assert(!live_true_in(clauses@[c as int].lits(), clauses@[c as int].marks(), model@));
            return false;
        }
        c += 1;
    }
    true
}

/// 2 to the power `n`.
pub open spec fn pow2(n: nat) -> nat
    decreases n,
{
    if n == 0 {
        1
    } else {
        2 * pow2((n - 1) as nat)
    }
}

/// What is left of `i` after halving it `j` times.
pub open spec fn halved(i: nat, j: nat) -> nat
    decreases j,
{
    if j == 0 {
        i
    } else {
        halved(i, (j - 1) as nat) / 2
    }
}

/// The values of `n` variables that the number `i` stands for: variable `j`
/// is true where binary digit `j` of `i` is 0, and false where it is 1.
pub open spec fn values_of(i: nat, n: nat) -> Seq<VarValue> {
    Seq::new(
        n,
        |j: int|
            if halved(i, j as nat) % 2 == 0 {
                VarValue::VTrue
            } else {
                VarValue::VFalse
            },
    )
}

/// The number below 2 to the power `n - lo` whose binary digit `j` is 0
/// exactly where `m` makes variable `lo + j` true.
pub open spec fn code(m: Assignment, lo: nat, n: nat) -> nat
    decreases n - lo,
{
    if lo >= n {
        0
    } else {
        (if m(lo as int) {
            0nat
        } else {
            1nat
        }) + 2 * code(m, lo + 1, n)
    }
}

/// `code` is below the power of 2.
pub proof fn lemma_code_bound(m: Assignment, lo: nat, n: nat)
    requires
        lo <= n,
    ensures
        code(m, lo, n) < pow2((n - lo) as nat),
    decreases n - lo,
{
    if lo < n {
        lemma_code_bound(m, lo + 1, n);
    }
}

/// Halving `code` drops its lowest digits.
pub proof fn lemma_code_halved(m: Assignment, n: nat, j: nat)
    requires
        j <= n,
    ensures
        halved(code(m, 0, n), j) == code(m, j, n),
    decreases j,
{
    if j > 0 {
        lemma_code_halved(m, n, (j - 1) as nat);
    }
}

/// The values that `code` stands for are those of `m`.
pub proof fn lemma_code_values(m: Assignment, n: nat, j: int)
    requires
        0 <= j < n,
    ensures
        values_of(code(m, 0, n), n)[j] == (if m(j) {
            VarValue::VTrue
        } else {
            VarValue::VFalse
        }),
{
    lemma_code_halved(m, n, j as nat);
}

/// No number below `k` stands for values that satisfy the clauses.
pub open spec fn none_below(clauses: Seq<Clause>, n: nat, k: nat) -> bool {
    forall|i: nat| i < k ==> !all_live_true(clauses, #[trigger] values_of(i, n))
}

/// Where no literal is marked and every variable in the clauses is below
/// `n`, trying the values of all numbers below 2 to the power `n` decides
/// whether the formula is satisfiable.
pub proof fn lemma_none_below(clauses: Seq<Clause>, n: nat)
    requires
        forall|c: int| 0 <= c < clauses.len() ==> (#[trigger] clauses[c]).unmarked(),
        forall|c: int| 0 <= c < clauses.len() ==> (#[trigger] clauses[c]).wf(),
        forall|c: int, p: int|
            0 <= c < clauses.len() && 0 <= p < clauses[c].lits().len() ==> (
            #[trigger] clauses[c].lits()[p]).var.num < n,
    ensures
        none_below(clauses, n, pow2(n)) == !satisfiable(lits_of(clauses)),
{
    let f = lits_of(clauses);
    if satisfiable(f) {
        let m = choose|m: Assignment| #[trigger] models(f, m);
        let i = code(m, 0, n);
        lemma_code_bound(m, 0, n);
        let values = values_of(i, n);
        assert forall|c: int| 0 <= c < f.len() implies clause_true_in(#[trigger] f[c], values) by {
            assert(clause_holds(f[c], m));
            let p = choose|p: int| 0 <= p < f[c].len() && lit_holds(#[trigger] f[c][p], m);
            let l = f[c][p];
            assert(l == clauses[c].lits()[p]);
            assert(l.var.num < n);
            lemma_code_values(m, n, l.var_index());
            assert(lit_true_in(f[c][p], values));
        }
        lemma_all_live_true(clauses, values);
        assert(all_live_true(clauses, values_of(i, n)));
    }
    if !none_below(clauses, n, pow2(n)) {
        let i = choose|i: nat| i < pow2(n) && all_live_true(clauses, #[trigger] values_of(i, n));
        let values = values_of(i, n);
        lemma_all_live_true(clauses, values);
        let m: Assignment = |v: int| 0 <= v < n && values[v] == VarValue::VTrue;
        assert forall|c: int| 0 <= c < f.len() implies clause_holds(#[trigger] f[c], m) by {
            assert(clause_true_in(f[c], values));
            let p = choose|p: int| 0 <= p < f[c].len() && lit_true_in(#[trigger] f[c][p], values);
            assert(lit_holds(f[c][p], m));
        }
        assert(models(f, m));
    }
}

/// The values that the number `i` stands for.
fn values_for(i: usize, var_num: usize) -> (model: Vec<VarValue>)
    ensures
        model@ == values_of(i as nat, var_num as nat),
{
    let mut model = Vec::<VarValue>::new();
    let mut x: usize = i;
    let mut j: usize = 0;
    while j < var_num
        invariant
            0 <= j <= var_num,
            x == halved(i as nat, j as nat),
            model@.len() == j,
            forall|q: int| 0 <= q < j ==> #[trigger] model@[q] == values_of(i as nat, var_num as nat)[q],
        decreases var_num - j,
    {
        if x % 2 == 0 {
            model.push(VarValue::VTrue);
        } else {
            model.push(VarValue::VFalse);
        }
        x = x / 2;
        j += 1;
    }
    assert(model@ =~= values_of(i as nat, var_num as nat));
    model
}

/// Tries every assignment of true and false to the variables below
/// `var_num`, and tells whether none of them gives every clause an unmarked
/// literal that is true. Where nothing is marked and the clauses hold no
/// other variable, that is to tell whether the formula is unsatisfiable
/// (`lemma_none_below`).
pub fn verify_unsat(clauses: &[Clause], var_num: usize) -> (r: bool)
    requires
        forall|c: int| 0 <= c < clauses@.len() ==> (#[trigger] clauses@[c]).wf(),
        pow2(var_num as nat) <= usize::MAX,
    ensures
        r == none_below(clauses@, var_num as nat, pow2(var_num as nat)),
{
    let mut count: usize = 1;
    let mut j: usize = 0;
    while j < var_num
        invariant
            0 <= j <= var_num,
            count == pow2(j as nat),
            pow2(var_num as nat) <= usize::MAX,
        decreases var_num - j,
    {
        proof {
            lemma_pow2_grows((j + 1) as nat, var_num as nat);
        }
        count = count * 2;
        j += 1;
    }
    let mut i: usize = 0;
    while i < count
        invariant
            0 <= i <= count,
            count == pow2(var_num as nat),
            forall|c: int| 0 <= c < clauses@.len() ==> (#[trigger] clauses@[c]).wf(),
            none_below(clauses@, var_num as nat, i as nat),
        decreases count - i,
    {
        let model = values_for(i, var_num);
        if verify(clauses, model.as_slice()) {
            assert(!none_below(clauses@, var_num as nat, pow2(var_num as nat))) by {
                assert(all_live_true(clauses@, values_of(i as nat, var_num as nat)));
            }
            return false;
        }
        i += 1;
    }
    true
}

/// Powers of 2 grow with the exponent.
pub proof fn lemma_pow2_grows(a: nat, b: nat)
    requires
        a <= b,
    ensures
        pow2(a) <= pow2(b),
        pow2(a) >= 1,
    decreases b,
{
    if a < b {
        lemma_pow2_grows(a, (b - 1) as nat);
    } else if a > 0 {
        lemma_pow2_grows((a - 1) as nat, (a - 1) as nat);
    }
}

} // verus!
