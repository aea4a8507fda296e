//! The solver: its clause store, its model with the occurrence lists, and
//! the operations that build a formula.

use crate::clause::{Clause, lemma_live_lits_unmarked};
use crate::formula::satisfiable;
use crate::fresh::{lemma_blank_core, lemma_unit_values_grounded};
use crate::ingest::{
    lemma_new_var, lemma_occ_next, lemma_occ_step, map_upto, occ_upto, with_new_var,
};
use crate::lit::{Lit, Var, VarValue};
use crate::loose::{blanked, entries, grown, lemma_loose_new_var};
use crate::slack::{lemma_slack_new_var, slack_inv};
use crate::state::{formula_size, lit_of, Occ, State, unit_values};
use vstd::prelude::*;

verus! {

/// The literals of each clause.
pub open spec fn lits_of(clauses: Seq<Clause>) -> Seq<Seq<Lit>> {
    Seq::new(clauses.len(), |c: int| clauses[c].lits())
}

/// The marks of each clause.
pub open spec fn marks_of(clauses: Seq<Clause>) -> Seq<Seq<bool>> {
    Seq::new(clauses.len(), |c: int| clauses[c].marks())
}

/// The contents of each occurrence list.
pub open spec fn lists_of(lists: Seq<Vec<Occ>>) -> Seq<Seq<Occ>> {
    Seq::new(lists.len(), |v: int| lists[v]@)
}

/// The clauses, each with the number of its literals that are currently true.
#[derive(Debug)]
pub(crate) struct Cnf {
    pub(crate) clauses: Vec<Clause>,
    pub(crate) sat: Vec<usize>,
}

impl Cnf {
    pub(crate) fn new() -> (r: Cnf)
        ensures
            r.clauses@.len() == 0,
            r.sat@.len() == 0,
    {
        Cnf { clauses: Vec::new(), sat: Vec::new() }
    }

    pub(crate) fn add_clause(&mut self, clause: Clause)
        ensures
            final(self).clauses@ == old(self).clauses@.push(clause),
            final(self).sat@ == old(self).sat@.push(0usize),
    {
        self.clauses.push(clause);
        self.sat.push(0);
    }

    pub(crate) fn len(&self) -> (n: usize)
        ensures
            n == self.clauses@.len(),
    {
        self.clauses.len()
    }
}

/// For each variable, the positions at which it occurs positively and those
/// at which it occurs negatively.
#[derive(Debug)]
pub(crate) struct VarMap {
    pub(crate) lit_num: usize,
    pub(crate) true_clause_list: Vec<Vec<Occ>>,
    pub(crate) false_clause_list: Vec<Vec<Occ>>,
    pub(crate) cnt: Vec<usize>,
}

impl VarMap {
    pub(crate) fn new() -> (r: VarMap)
        ensures
            r.lit_num == 0,
            r.true_clause_list@.len() == 0,
            r.false_clause_list@.len() == 0,
            r.cnt@.len() == 0,
    {
        VarMap {
            lit_num: 0,
            true_clause_list: Vec::new(),
            false_clause_list: Vec::new(),
            cnt: Vec::new(),
        }
    }

    /// Adds a variable, with no occurrence yet.
    pub(crate) fn new_var(&mut self)
        requires
            old(self).lit_num == old(self).true_clause_list@.len(),
        ensures
            final(self).lit_num == old(self).lit_num + 1,
            final(self).true_clause_list@.len() == old(self).true_clause_list@.len() + 1,
            final(self).false_clause_list@.len() == old(self).false_clause_list@.len() + 1,
            lists_of(final(self).true_clause_list@) == lists_of(old(self).true_clause_list@).push(
                Seq::<Occ>::empty(),
            ),
            lists_of(final(self).false_clause_list@) == lists_of(
                old(self).false_clause_list@,
            ).push(Seq::<Occ>::empty()),
            final(self).cnt@ == old(self).cnt@.push(0usize),
    {
        self.true_clause_list.push(Vec::new());
        self.false_clause_list.push(Vec::new());
        self.cnt.push(0);
        assert(self.true_clause_list@.len() == self.true_clause_list.len());
        self.lit_num = self.lit_num + 1;
        assert(lists_of(self.true_clause_list@) =~= lists_of(old(self).true_clause_list@).push(
            Seq::<Occ>::empty(),
        ));
        assert(lists_of(self.false_clause_list@) =~= lists_of(old(self).false_clause_list@).push(
            Seq::<Occ>::empty(),
        ));
    }

    /// Enters the positions of the literals of `clause`, which is or is about
    /// to be clause `idx` of the formula `lits`, into the lists.
    pub(crate) fn add_clause(
        &mut self,
        idx: usize,
        clause: &Clause,
        Ghost(lits): Ghost<Seq<Seq<Lit>>>,
        Ghost(bound): Ghost<nat>,
    )
        requires
            clause.wf(),
            clause.unmarked(),
            idx < lits.len(),
            lits[idx as int] == clause.lits(),
            forall|i: int|
                0 <= i < clause.lits().len() ==> (#[trigger] clause.lits()[i]).var.num < old(self).true_clause_list@.len(),
            map_upto(
                lits,
                lists_of(old(self).true_clause_list@),
                lists_of(old(self).false_clause_list@),
                old(self).cnt@,
                idx as int,
                0,
                bound,
            ),
            bound + clause.lits().len() <= usize::MAX,
        ensures
            map_upto(
                lits,
                lists_of(final(self).true_clause_list@),
                lists_of(final(self).false_clause_list@),
                final(self).cnt@,
                idx + 1,
                0,
                (bound + clause.lits().len()) as nat,
            ),
            final(self).lit_num == old(self).lit_num,
            final(self).true_clause_list@.len() == old(self).true_clause_list@.len(),
            forall|v: int|
                0 <= v < old(self).true_clause_list@.len() ==> #[trigger] lists_of(
                    final(self).true_clause_list@,
                )[v] == lists_of(old(self).true_clause_list@)[v] + entries(
                    clause.lits(),
                    idx as int,
                    lit_of(v, true),
                    clause.lits().len(),
                ),
            forall|v: int|
                0 <= v < old(self).true_clause_list@.len() ==> #[trigger] lists_of(
                    final(self).false_clause_list@,
                )[v] == lists_of(old(self).false_clause_list@)[v] + entries(
                    clause.lits(),
                    idx as int,
                    lit_of(v, false),
                    clause.lits().len(),
                ),
    {
        let all = clause.get_all_lits();
        proof {
            lemma_live_lits_unmarked(clause.lits(), clause.marks());
        }
        let n = all.len();
        let mut i: usize = 0;
        proof {
            let posb = lists_of(self.true_clause_list@);
            let negb = lists_of(self.false_clause_list@);
            assert forall|v: int| 0 <= v < posb.len() implies #[trigger] posb[v] == posb[v]
                + entries(all@, idx as int, lit_of(v, true), 0) by {
                assert(posb[v] + Seq::<Occ>::empty() =~= posb[v]);
            }
            assert forall|v: int| 0 <= v < posb.len() implies #[trigger] negb[v] == negb[v]
                + entries(all@, idx as int, lit_of(v, false), 0) by {
                assert(negb[v] + Seq::<Occ>::empty() =~= negb[v]);
            }
        }
        while i < n
            invariant
                0 <= i <= n,
                n == all@.len(),
                all@ == clause.lits(),
                self.false_clause_list@.len() == old(self).true_clause_list@.len(),
                old(self).false_clause_list@.len() == old(self).true_clause_list@.len(),
                idx < lits.len(),
                lits[idx as int] == all@,
                bound + n <= usize::MAX,
                self.lit_num == old(self).lit_num,
                self.true_clause_list@.len() == old(self).true_clause_list@.len(),
                forall|k: int| 0 <= k < all@.len() ==> (#[trigger] all@[k]).var.num
                    < self.true_clause_list@.len(),
                forall|v: int|
                    0 <= v < old(self).true_clause_list@.len() ==> #[trigger] lists_of(
                        self.true_clause_list@,
                    )[v] == lists_of(old(self).true_clause_list@)[v] + entries(
                        all@,
                        idx as int,
                        lit_of(v, true),
                        i as nat,
                    ),
                forall|v: int|
                    0 <= v < old(self).true_clause_list@.len() ==> #[trigger] lists_of(
                        self.false_clause_list@,
                    )[v] == lists_of(old(self).false_clause_list@)[v] + entries(
                        all@,
                        idx as int,
                        lit_of(v, false),
                        i as nat,
                    ),
                map_upto(
                    lits,
                    lists_of(self.true_clause_list@),
                    lists_of(self.false_clause_list@),
                    self.cnt@,
                    idx as int,
                    i as int,
                    (bound + i) as nat,
                ),
            decreases n - i,
        {
            let lit = all[i];
            let var_num = lit.var_num();
            let ghost pos0 = lists_of(self.true_clause_list@);
            let ghost neg0 = lists_of(self.false_clause_list@);
            let ghost cnt0 = self.cnt@;
            assert(cnt0[var_num as int] <= bound + i);
            self.cnt[var_num] += 1;
            if lit.get_value() == VarValue::VTrue {
                self.true_clause_list[var_num].push((idx, i));
            } else {
                self.false_clause_list[var_num].push((idx, i));
            }
            proof {
                let pos1 = lists_of(self.true_clause_list@);
                let neg1 = lists_of(self.false_clause_list@);
                assert(lit == lit_of(var_num as int, lit.positive));
                assert(self.true_clause_list@.len() == self.true_clause_list.len());
                assert(lits[idx as int][i as int] == lit);
                assert forall|v: int| 0 <= v < pos1.len() implies occ_upto(
                    lits,
                    #[trigger] pos1[v],
                    lit_of(v, true),
                    idx as int,
                    i + 1,
                ) by {
                    assert(occ_upto(lits, pos0[v], lit_of(v, true), idx as int, i as int));
                    lemma_occ_step(lits, pos0[v], lit_of(v, true), idx as int, i as int);
                    if v == var_num && lit.positive {
                        assert(pos1[v] == pos0[v].push((idx, i)));
                    } else {
                        assert(pos1[v] == pos0[v]);
                    }
                }
                assert forall|v: int| 0 <= v < pos1.len() implies occ_upto(
                    lits,
                    #[trigger] neg1[v],
                    lit_of(v, false),
                    idx as int,
                    i + 1,
                ) by {
                    assert(occ_upto(lits, neg0[v], lit_of(v, false), idx as int, i as int));
                    lemma_occ_step(lits, neg0[v], lit_of(v, false), idx as int, i as int);
                    if v == var_num && !lit.positive {
                        assert(neg1[v] == neg0[v].push((idx, i)));
                    } else {
                        assert(neg1[v] == neg0[v]);
                    }
                }
                let posb = lists_of(old(self).true_clause_list@);
                let negb = lists_of(old(self).false_clause_list@);
                assert forall|v: int| 0 <= v < posb.len() implies #[trigger] pos1[v] == posb[v]
                    + entries(all@, idx as int, lit_of(v, true), (i + 1) as nat) by {
                    assert(pos0[v] == posb[v] + entries(all@, idx as int, lit_of(v, true), i as nat));
                    if v == var_num && lit.positive {
                        assert(pos1[v] == pos0[v].push((idx, i)));
                        assert(pos1[v] =~= posb[v] + entries(
                            all@,
                            idx as int,
                            lit_of(v, true),
                            (i + 1) as nat,
                        ));
                    } else {
                        assert(pos1[v] == pos0[v]);
                        assert(all@[i as int] != lit_of(v, true));
                    }
                }
                assert forall|v: int| 0 <= v < posb.len() implies #[trigger] neg1[v] == negb[v]
                    + entries(all@, idx as int, lit_of(v, false), (i + 1) as nat) by {
                    assert(neg0[v] == negb[v] + entries(
                        all@,
                        idx as int,
                        lit_of(v, false),
                        i as nat,
                    ));
                    if v == var_num && !lit.positive {
                        assert(neg1[v] == neg0[v].push((idx, i)));
                        assert(neg1[v] =~= negb[v] + entries(
                            all@,
                            idx as int,
                            lit_of(v, false),
                            (i + 1) as nat,
                        ));
                    } else {
                        assert(neg1[v] == neg0[v]);
                        assert(all@[i as int] != lit_of(v, false));
                    }
                }
                assert forall|v: int| 0 <= v < pos1.len() implies (#[trigger] self.cnt@[v])
                    == pos1[v].len() + neg1[v].len() && self.cnt@[v] <= bound + i + 1 by {
                    assert(cnt0[v] == pos0[v].len() + neg0[v].len());
                    if v == var_num {
                        if lit.positive {
                            assert(pos1[v] == pos0[v].push((idx, i)));
                            assert(neg1[v] == neg0[v]);
                        } else {
                            assert(neg1[v] == neg0[v].push((idx, i)));
                            assert(pos1[v] == pos0[v]);
                        }
                    } else {
                        assert(pos1[v] == pos0[v]);
                        assert(neg1[v] == neg0[v]);
                    }
                }
            }
            i += 1;
        }
        proof {
            let pos1 = lists_of(self.true_clause_list@);
            let neg1 = lists_of(self.false_clause_list@);
            assert forall|v: int| 0 <= v < pos1.len() implies occ_upto(
                lits,
                #[trigger] pos1[v],
                lit_of(v, true),
                idx + 1,
                0,
            ) by {
                lemma_occ_next(lits, pos1[v], lit_of(v, true), idx as int);
            }
            assert forall|v: int| 0 <= v < pos1.len() implies occ_upto(
                lits,
                #[trigger] neg1[v],
                lit_of(v, false),
                idx + 1,
                0,
            ) by {
                lemma_occ_next(lits, neg1[v], lit_of(v, false), idx as int);
            }
        }
    }

    /// The positions at which variable `var` occurs with polarity `val`.
    pub(crate) fn get_clauses_of(&self, var: usize, val: bool) -> (r: &Vec<Occ>)
        requires
            var < self.true_clause_list@.len(),
            var < self.false_clause_list@.len(),
        ensures
            r@ == if val {
                self.true_clause_list@[var as int]@
            } else {
                self.false_clause_list@[var as int]@
            },
    {
        if val {
            &self.true_clause_list[var]
        } else {
            &self.false_clause_list[var]
        }
    }
}

/// The values of the variables and what the search knows about them.
#[derive(Debug)]
pub(crate) struct Model {
    pub(crate) var: Vec<VarValue>,
    pub(crate) expected: Vec<(VarValue, usize)>,
    pub(crate) map: VarMap,
    pub(crate) propagated: Vec<bool>,
}

impl Model {
    pub(crate) fn new() -> (r: Model)
        ensures
            r.var@.len() == 0,
            r.expected@.len() == 0,
            r.propagated@.len() == 0,
            r.map.lit_num == 0,
            r.map.true_clause_list@.len() == 0,
            r.map.false_clause_list@.len() == 0,
            r.map.cnt@.len() == 0,
    {
        Model { var: Vec::new(), expected: Vec::new(), map: VarMap::new(), propagated: Vec::new() }
    }

    pub(crate) fn new_var(&mut self)
        requires
            old(self).map.lit_num == old(self).map.true_clause_list@.len(),
        ensures
            final(self).var@ == old(self).var@.push(VarValue::VUndef),
            final(self).expected@ == old(self).expected@.push((VarValue::VUndef, 0usize)),
            final(self).propagated@ == old(self).propagated@.push(false),
            final(self).map.lit_num == old(self).map.lit_num + 1,
            lists_of(final(self).map.true_clause_list@) == lists_of(
                old(self).map.true_clause_list@,
            ).push(Seq::<Occ>::empty()),
            lists_of(final(self).map.false_clause_list@) == lists_of(
                old(self).map.false_clause_list@,
            ).push(Seq::<Occ>::empty()),
            final(self).map.cnt@ == old(self).map.cnt@.push(0usize),
    {
        self.var.push(VarValue::VUndef);
        self.expected.push((VarValue::VUndef, 0));
        self.propagated.push(false);
        self.map.new_var();
    }

    pub(crate) fn len(&self) -> (n: usize)
        ensures
            n == self.var@.len(),
    {
        self.var.len()
    }
}

/// A satisfiability solver for formulas in conjunctive normal form.
#[derive(Debug)]
pub struct Solver {
    pub(crate) cnf: Cnf,
    pub(crate) len: usize,
    pub(crate) num_var: usize,
    pub(crate) model: Model,
    pub(crate) status: bool,
    pub(crate) iter_num: usize,
    pub(crate) indexed: usize,
    pub(crate) touched: bool,
    pub(crate) stale: bool,
    pub(crate) iterations: usize,
    pub(crate) size: usize,
}

impl Solver {
    /// What the solver holds, as mathematical data.
    pub open(crate) spec fn state(&self) -> State {
        State {
            lits: lits_of(self.cnf.clauses@),
            marks: marks_of(self.cnf.clauses@),
            sat: self.cnf.sat@,
            value: self.model.var@,
            propagated: self.model.propagated@,
            expected: self.model.expected@,
            pos: lists_of(self.model.map.true_clause_list@),
            neg: lists_of(self.model.map.false_clause_list@),
            cnt: self.model.map.cnt@,
            unsat: self.len,
            indexed: self.indexed as nat,
            status: self.status,
        }
    }

    /// The records of the solver's parts agree with each other.
    pub open(crate) spec fn wf(&self) -> bool {
        &&& forall|c: int|
            0 <= c < self.cnf.clauses@.len() ==> (#[trigger] self.cnf.clauses@[c]).wf()
        &&& self.num_var == self.model.var@.len()
        &&& self.model.map.lit_num == self.model.var@.len()
        &&& self.size == formula_size(self.state().lits)
        &&& self.state().shape()
    }

    /// The clauses that were recorded, each as the sequence of its literals.
    pub open(crate) spec fn formula(&self) -> Seq<Seq<Lit>> {
        self.state().lits
    }

    /// The current value of each variable.
    pub open(crate) spec fn model(&self) -> Seq<VarValue> {
        self.state().value
    }

    /// The number of variables.
    pub open(crate) spec fn num_vars(&self) -> nat {
        self.state().value.len()
    }

    /// False once the formula is known to be unsatisfiable.
    pub open(crate) spec fn status(&self) -> bool {
        self.status
    }

    /// No search has been run since the solver was made or last reset.
    pub open(crate) spec fn fresh(&self) -> bool {
        !self.touched
    }

    /// The number of iterations of a search after which progress is
    /// reported; 0 for no report.
    pub open(crate) spec fn log_frequency(&self) -> usize {
        self.iter_num
    }

    /// The number of iterations that the last search made, counted up to the
    /// largest number that fits.
    pub open(crate) spec fn iterations(&self) -> usize {
        self.iterations
    }

    /// A clause was recorded after a search had run, and the solver has not
    /// been reset since: counters, marks and expected values are those that
    /// the search left, and say nothing of the clauses added after it.
    pub open(crate) spec fn stale(&self) -> bool {
        self.stale
    }

    /// The status tells the truth: it is true, or the formula is
    /// unsatisfiable.
    pub open(crate) spec fn honest(&self) -> bool {
        self.status || !satisfiable(self.state().lits)
    }

    /// The state from which a search starts: the state of the solver, or,
    /// where the solver is stale and its status true, the state before any
    /// search. A simplification starts from the state as it is.
    pub open(crate) spec fn start(&self) -> State {
        if self.stale && self.status {
            blanked(self.state())
        } else {
            self.state()
        }
    }

    /// What holds of a solver that is not stale: every counter is the
    /// number of true literals of its clause; before a search nothing is
    /// propagated, counted, marked or expected; and while the status is true
    /// the marks and expected values are exact.
    pub open(crate) spec fn tidy(&self) -> bool {
        let s = self.state();
        &&& s.base_inv()
        &&& !self.touched ==> s.blank()
        &&& self.status ==> s.core_inv() && (s.grounded() || (s.unsat == 0 && s.settled()))
        &&& self.status && !self.touched ==> s.value == unit_values(
            s.lits,
            s.lits.len(),
            s.value.len(),
        )
    }

    /// The solver's invariant. It holds of every solver that `new` made and
    /// the public operations changed.
    pub open(crate) spec fn inv(&self) -> bool {
        let s = self.state();
        &&& self.wf()
        &&& s.loose_inv()
        &&& self.status ==> s.indexed == s.lits.len() && s.all_nonempty()
        &&& self.stale ==> self.touched
        &&& self.stale && self.status ==> slack_inv(s)
        &&& !self.stale ==> self.tidy()
    }

    /// A solver without variables and clauses.
    pub fn new() -> (r: Solver)
        ensures
            r.inv(),
            r.fresh(),
            !r.stale(),
            r.status(),
            r.formula() == Seq::<Seq<Lit>>::empty(),
            r.model() == Seq::<VarValue>::empty(),
            r.log_frequency() == 0,
    {
        let r = Solver {
            cnf: Cnf::new(),
            len: 0,
            num_var: 0,
            model: Model::new(),
            status: true,
            iter_num: 0,
            indexed: 0,
            touched: false,
            stale: false,
            iterations: 0,
            size: 0,
        };
        proof {
            let s = r.state();
            assert(s.lits =~= Seq::<Seq<Lit>>::empty());
            assert(s.value =~= Seq::<VarValue>::empty());
            assert(s.shape());
            assert(s.map_ok());
            assert(s.blank());
            lemma_blank_core(s);
            assert(s.value =~= unit_values(s.lits, s.lits.len(), s.value.len()));
            lemma_unit_values_grounded(s.lits, s.lits.len(), s.value.len());
        }
        r
    }

    /// Makes a new variable and returns it. Its index is the number of
    /// variables so far; it has no value.
    pub fn new_var(&mut self) -> (v: Var)
        requires
            old(self).inv(),
        ensures
            final(self).inv(),
            v.num == old(self).num_vars(),
            final(self).state() == with_new_var(old(self).state()),
            final(self).num_vars() == old(self).num_vars() + 1,
            final(self).model() == old(self).model().push(VarValue::VUndef),
            final(self).formula() == old(self).formula(),
            final(self).status() == old(self).status(),
            final(self).fresh() == old(self).fresh(),
            final(self).stale() == old(self).stale(),
            final(self).honest() == old(self).honest(),
            final(self).log_frequency() == old(self).log_frequency(),
            final(self).iterations() == old(self).iterations(),
    {
        let num = self.num_var;
        self.model.new_var();
        assert(self.model.var@.len() == self.model.var.len());
        self.num_var += 1;
        proof {
            let s = old(self).state();
            assert(self.state() == with_new_var(s));
            lemma_new_var(s);
            lemma_loose_new_var(s);
            if self.stale && self.status {
                lemma_slack_new_var(s);
            }
        }
        Var::new(num)
    }

    /// Makes `num` new variables and returns them in the order of their
    /// indices.
    pub fn create_vars(&mut self, num: usize) -> (vars: Vec<Var>)
        requires
            old(self).inv(),
        ensures
            final(self).inv(),
            vars@.len() == num,
            forall|i: int| 0 <= i < num ==> (#[trigger] vars@[i]).num == old(self).num_vars() + i,
            final(self).num_vars() == old(self).num_vars() + num,
            final(self).model() == old(self).model() + Seq::new(
                num as nat,
                |i: int| VarValue::VUndef,
            ),
            final(self).formula() == old(self).formula(),
            final(self).status() == old(self).status(),
            final(self).fresh() == old(self).fresh(),
            final(self).stale() == old(self).stale(),
            final(self).honest() == old(self).honest(),
            final(self).log_frequency() == old(self).log_frequency(),
            final(self).iterations() == old(self).iterations(),
            final(self).state() == grown(old(self).state(), (old(self).num_vars() + num) as nat),
    {
        let mut vars = Vec::<Var>::new();
        let mut i: usize = 0;
        while i < num
            invariant
                0 <= i <= num,
                self.inv(),
                vars@.len() == i,
                forall|j: int| 0 <= j < i ==> (#[trigger] vars@[j]).num == old(self).num_vars() + j,
                self.num_vars() == old(self).num_vars() + i,
                self.model() == old(self).model() + Seq::new(i as nat, |k: int| VarValue::VUndef),
                self.formula() == old(self).formula(),
                self.status() == old(self).status(),
                self.fresh() == old(self).fresh(),
                self.stale() == old(self).stale(),
                self.honest() == old(self).honest(),
                self.log_frequency() == old(self).log_frequency(),
                self.iterations() == old(self).iterations(),
                self.state() == grown(old(self).state(), (old(self).num_vars() + i) as nat),
            decreases num - i,
        {
            let v = self.new_var();
            vars.push(v);
            proof {
                assert(self.model() =~= old(self).model() + Seq::new(
                    (i + 1) as nat,
                    |k: int| VarValue::VUndef,
                ));
            }
            i += 1;
        }
        vars
    }

    /// Sets the number of iterations of a search after which progress is
    /// reported; 0 switches the report off.
    pub fn set_iter_print_freq(&mut self, num: usize)
        requires
            old(self).inv(),
        ensures
            final(self).inv(),
            final(self).log_frequency() == num,
            final(self).state() == old(self).state(),
            final(self).fresh() == old(self).fresh(),
            final(self).stale() == old(self).stale(),
    {
        self.iter_num = num;
    }

    /// The current value of each variable. After a search that found the
    /// formula satisfiable, the values satisfy it.
    pub fn get_model(&self) -> (r: &[VarValue])
        ensures
            r@ == self.model(),
    {
        self.model.var.as_slice()
    }

    /// A copy of the recorded clauses, with no literal marked.
    pub fn get_oringin_clauses(&self) -> (r: Vec<Clause>)
        requires
            self.inv(),
        ensures
            r@.len() == self.formula().len(),
            forall|c: int|
                0 <= c < r@.len() ==> (#[trigger] r@[c]).wf() && r@[c].unmarked() && r@[c].lits()
                    == self.formula()[c],
    {
        let mut r = Vec::<Clause>::new();
        let mut i: usize = 0;
        while i < self.cnf.clauses.len()
            invariant
                0 <= i <= self.cnf.clauses@.len(),
                self.wf(),
                r@.len() == i,
                forall|c: int|
                    0 <= c < i ==> (#[trigger] r@[c]).wf() && r@[c].unmarked() && r@[c].lits()
                        == self.formula()[c],
            decreases self.cnf.clauses@.len() - i,
        {
            let c = self.cnf.clauses[i].unmarked_copy();
            r.push(c);
            i += 1;
        }
        r
    }

    /// The status: false once the formula is known to be unsatisfiable.
    pub fn get_status(&self) -> (r: bool)
        ensures
            r == self.status(),
    {
        self.status
    }

    /// The number of variables.
    pub fn get_num_vars(&self) -> (r: usize)
        requires
            self.inv(),
        ensures
            r == self.num_vars(),
    {
        self.num_var
    }

    /// The number of recorded clauses.
    pub fn get_num_clauses(&self) -> (r: usize)
        ensures
            r == self.formula().len(),
    {
        self.cnf.clauses.len()
    }

    /// The number of true literals of clause `c`.
    pub fn get_sat(&self, c: usize) -> (r: usize)
        requires
            self.inv(),
            c < self.formula().len(),
        ensures
            r == self.state().sat[c as int],
    {
        self.cnf.sat[c]
    }

    /// The number of unmarked literals of clause `c`.
    pub fn get_live_len(&self, c: usize) -> (r: usize)
        requires
            self.inv(),
            c < self.formula().len(),
        ensures
            r == self.state().live(c as int),
    {
        self.cnf.clauses[c].len()
    }

    /// The number of clauses without a true literal.
    pub fn get_unsat_count(&self) -> (r: usize)
        ensures
            r == self.state().unsat,
    {
        self.len
    }

    /// Whether the value of variable `v` has been carried through the
    /// clauses.
    pub fn get_propagated(&self, v: usize) -> (r: bool)
        requires
            self.inv(),
            v < self.num_vars(),
        ensures
            r == self.state().propagated[v as int],
    {
        self.model.propagated[v]
    }

    /// The value that clauses with one literal left ask of variable `v`,
    /// and the number of those clauses.
    pub fn get_expected(&self, v: usize) -> (r: (VarValue, usize))
        requires
            self.inv(),
            v < self.num_vars(),
        ensures
            r == self.state().expected[v as int],
    {
        self.model.expected[v]
    }

    /// The number of iterations that the last search made, counted up to the
    /// largest number that fits.
    pub fn get_iterations(&self) -> (r: usize)
        ensures
            r == self.iterations(),
    {
        self.iterations
    }
}

} // verus!
