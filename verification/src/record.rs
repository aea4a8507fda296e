//! Recording clauses in a solver.

use crate::clause::{lemma_max_index, Clause};
use crate::count::{lemma_count_full, lemma_count_pos, lemma_first_eq_is};
use crate::fresh::{
    lemma_blank_core, lemma_unit_values, lemma_unit_values_grounded, with_value,
};
use crate::ingest::{
    lemma_map_frame, lemma_map_of_state, lemma_size_frame, lemma_size_lower, lemma_state_of_map,
    lemma_unit_values_frame, same_before,
};
use crate::lit::{Lit, VarValue};
use crate::loose::{
    grown, indexed_with, ingest, lemma_grounded_recorded, lemma_grounded_unit,
    lemma_loose_recorded, lemma_loose_set_value, lemma_refuted_unsat, lemma_sat_recorded, no_true,
    refuted_with, vars_after,
};
use crate::slack::{lemma_core_slack, lemma_slack_recorded, lemma_slack_set_value, slack_inv};
use crate::solver::Solver;
use crate::state::{formula_size, size_of, unit_values};
use vstd::prelude::*;

verus! {

impl Solver {
    /// The solver can record and index a clause: its status is true, and
    /// before a search nothing is propagated, counted, marked or expected.
    /// The values may be any.
    pub open(crate) spec fn ingest_ready(&self) -> bool {
        let s = self.state();
        &&& self.wf()
        &&& s.loose_inv()
        &&& s.all_nonempty()
        &&& s.indexed == s.lits.len()
        &&& self.status
        &&& self.stale ==> self.touched
        &&& self.touched ==> slack_inv(s)
        &&& !self.touched ==> s.blank()
    }

    /// Records `clause` as the last clause, without an entry in the
    /// occurrence lists and without a change of the count of clauses without
    /// a true literal, and sets the status to false.
    fn record_refuted(&mut self, clause: Clause)
        requires
            old(self).inv(),
            old(self).status(),
            clause.wf(),
            clause.unmarked(),
            forall|i: int|
                0 <= i < clause.lits().len() ==> (#[trigger] clause.lits()[i]).var.num < old(self).num_vars(),
            no_true(old(self).state(), clause.lits()),
            formula_size(old(self).formula()) + clause.lits().len() <= usize::MAX,
        ensures
            final(self).inv(),
            final(self).state() == refuted_with(old(self).state(), clause.lits()),
            final(self).fresh() == old(self).fresh(),
            final(self).stale() == old(self).stale(),
            final(self).log_frequency() == old(self).log_frequency(),
            final(self).iterations() == old(self).iterations(),
    {
        let ghost s = self.state();
        let ghost cl = clause.lits();
        self.size += clause.total();
        self.cnf.add_clause(clause);
        self.status = false;
        proof {
            let t = self.state();
            assert(t.lits =~= s.lits.push(cl));
            lemma_size_frame(s.lits, t.lits, s.lits.len());
            assert(clause.marks() =~= Seq::new(cl.len(), |p: int| false));
            assert(t.marks =~= s.marks.push(Seq::new(cl.len(), |p: int| false)));
            assert(self.cnf.clauses@.len() == self.cnf.clauses.len());
            assert forall|c: int| 0 <= c < t.lits.len() implies (#[trigger] t.marks[c]).len()
                == t.lits[c].len() && t.lits[c].len() <= usize::MAX by {
                if c < s.lits.len() {
                    assert(s.marks[c].len() == s.lits[c].len());
                }
            }
            assert forall|c: int, p: int|
                0 <= c < t.lits.len() && 0 <= p < t.lits[c].len() implies (
                #[trigger] t.lits[c][p]).var.num < t.value.len() by {
                if c < s.lits.len() {
                    assert(s.lits[c][p].var.num < s.value.len());
                }
            }
            assert(t.shape());
            lemma_map_of_state(s);
            assert(same_before(s.lits, t.lits, s.indexed as int, 0));
            lemma_map_frame(
                s.lits,
                t.lits,
                s.pos,
                s.neg,
                s.cnt,
                s.indexed as int,
                0,
                size_of(s.lits, s.indexed),
            );
            lemma_size_frame(s.lits, t.lits, s.indexed);
            lemma_state_of_map(t);
            lemma_loose_recorded(s, t, cl, false);
            assert(t == refuted_with(s, cl));
            if !self.stale {
                lemma_sat_recorded(s, t, cl);
                if !self.touched {
                    assert(t.blank()) by {
                        assert forall|c: int, p: int|
                            0 <= c < t.marks.len() && 0 <= p < t.marks[c].len() implies !#[trigger] t.marks[c][p] by {
                            if c < s.lits.len() {
                                assert(!s.marks[c][p]);
                            }
                        }
                        assert forall|c: int| 0 <= c < t.sat.len() implies #[trigger] t.sat[c]
                            == 0 by {
                            if c < s.lits.len() {
                                assert(s.sat[c] == 0);
                            }
                        }
                    }
                }
            }
            assert forall|c: int| 0 <= c < self.cnf.clauses@.len() implies (
            #[trigger] self.cnf.clauses@[c]).wf() by {
                if c < s.lits.len() {
                    assert(old(self).cnf.clauses@[c].wf());
                }
            }
        }
    }

    /// Records `clause` as the last clause, enters its literals into the
    /// occurrence lists and counts it among the clauses without a true
    /// literal. A solver on which a search has run becomes stale.
    fn record_indexed(&mut self, clause: Clause)
        requires
            old(self).ingest_ready(),
            clause.wf(),
            clause.unmarked(),
            clause.lits().len() > 0,
            forall|i: int|
                0 <= i < clause.lits().len() ==> (#[trigger] clause.lits()[i]).var.num < old(self).num_vars(),
            formula_size(old(self).formula()) + clause.lits().len() <= usize::MAX,
            old(self).fresh() ==> old(self).model() == unit_values(
                old(self).formula().push(clause.lits()),
                old(self).formula().len() + 1,
                old(self).num_vars(),
            ),
        ensures
            final(self).inv(),
            final(self).status(),
            final(self).state() == indexed_with(old(self).state(), clause.lits()),
            final(self).state().unsat == old(self).state().unsat + 1,
            final(self).fresh() == old(self).fresh(),
            final(self).stale() == !old(self).fresh(),
            final(self).log_frequency() == old(self).log_frequency(),
            final(self).iterations() == old(self).iterations(),
    {
        let ghost s = self.state();
        let ghost cl = clause.lits();
        let ghost lits1 = s.lits.push(cl);
        let idx = self.cnf.len();
        proof {
            lemma_map_of_state(s);
            assert(same_before(s.lits, lits1, s.indexed as int, 0));
            lemma_map_frame(
                s.lits,
                lits1,
                s.pos,
                s.neg,
                s.cnt,
                s.indexed as int,
                0,
                size_of(s.lits, s.indexed),
            );
            lemma_size_lower(s.lits, s.lits.len());
            crate::count::lemma_count_bound(s.zero_flags(), true);
        }
        self.model.map.add_clause(idx, &clause, Ghost(lits1), Ghost(size_of(s.lits, s.indexed)));
        self.len += 1;
        self.indexed += 1;
        self.size += clause.total();
        self.cnf.add_clause(clause);
        if self.touched {
            self.stale = true;
        }
        proof {
            let t = self.state();
            assert(t.lits =~= lits1);
            lemma_size_frame(s.lits, t.lits, s.lits.len());
            assert(clause.marks() =~= Seq::new(cl.len(), |p: int| false));
            assert(t.marks =~= s.marks.push(Seq::new(cl.len(), |p: int| false)));
            assert forall|c: int| 0 <= c < t.lits.len() implies (#[trigger] t.marks[c]).len()
                == t.lits[c].len() && t.lits[c].len() <= usize::MAX by {
                if c < s.lits.len() {
                    assert(s.marks[c].len() == s.lits[c].len());
                }
            }
            assert forall|c: int, p: int|
                0 <= c < t.lits.len() && 0 <= p < t.lits[c].len() implies (
                #[trigger] t.lits[c][p]).var.num < t.value.len() by {
                if c < s.lits.len() {
                    assert(s.lits[c][p].var.num < s.value.len());
                }
            }
            assert(t.shape());
            lemma_size_frame(s.lits, t.lits, s.indexed);
            lemma_state_of_map(t);
            lemma_loose_recorded(s, t, cl, true);
            assert(t.all_nonempty()) by {
                assert forall|c: int| 0 <= c < t.lits.len() implies (#[trigger] t.lits[c]).len()
                    > 0 by {
                    if c < s.lits.len() {
                        assert(s.lits[c].len() > 0);
                    }
                }
            }
            let want = indexed_with(s, cl);
            assert(t.pos =~= want.pos);
            assert(t.neg =~= want.neg);
            assert(t.cnt =~= want.cnt) by {
                assert forall|v: int| 0 <= v < t.cnt.len() implies t.cnt[v] == want.cnt[v] by {
                    assert(t.var_map_ok(v));
                    assert(s.var_map_ok(v));
                    assert(t.pos[v] == want.pos[v]);
                    assert(t.neg[v] == want.neg[v]);
                }
            }
            assert(t == want);
            if self.touched {
                lemma_slack_recorded(s, t, cl);
            }
            if !self.touched {
                assert(t.blank()) by {
                    assert forall|c: int, p: int|
                        0 <= c < t.marks.len() && 0 <= p < t.marks[c].len() implies !#[trigger] t.marks[c][p] by {
                        if c < s.lits.len() {
                            assert(!s.marks[c][p]);
                        }
                    }
                    assert forall|c: int| 0 <= c < t.sat.len() implies #[trigger] t.sat[c] == 0 by {
                        if c < s.lits.len() {
                            assert(s.sat[c] == 0);
                        }
                    }
                }
                lemma_blank_core(t);
                lemma_unit_values_grounded(t.lits, t.lits.len(), t.value.len());
            }
            assert forall|c: int| 0 <= c < self.cnf.clauses@.len() implies (
            #[trigger] self.cnf.clauses@[c]).wf() by {
                if c < s.lits.len() {
                    assert(old(self).cnf.clauses@[c].wf());
                }
            }
        }
    }

    /// Tells whether the solver has room for `clause`: whether the number of
    /// literals in the formula stays within what a count can hold, and the
    /// variables of the clause can be made.
    pub fn fits(&self, clause: &Clause) -> (r: bool)
        requires
            self.inv(),
            clause.wf(),
        ensures
            r == (formula_size(self.formula()) + clause.lits().len() <= usize::MAX && forall|
                i: int,
            |
                0 <= i < clause.lits().len() ==> (#[trigger] clause.lits()[i]).var.num
                    < usize::MAX),
    {
        proof {
            lemma_max_index(clause.lits());
        }
        let in_range = match clause.get_max() {
            Some(m) => m < usize::MAX,
            None => true,
        };
        clause.total() <= usize::MAX - self.size && in_range
    }

    /// Adds a clause to the formula and returns the status: false where the
    /// clause is empty or is a clause of one literal against the value of its
    /// variable. Fails where the status was false already.
    ///
    /// Variables are made up to the largest index in the clause. Marks on
    /// the literals of `clause` are dropped. What becomes of the state is
    /// `ingest`: the clause is judged by the current values, and values,
    /// counters, marks and expected values stay as they are. So after a
    /// search the counters and marks say nothing of the new clause; the
    /// solver is then stale, and the next simplification or search starts
    /// from the state before any search.
    ///
    /// The count of clauses without a true literal goes up by one exactly
    /// where the clause is indexed.
    ///
    /// The status stays honest where every satisfying assignment agrees
    /// with the values, as before a search and after a simplification. A
    /// clause of one literal against a value that a search decided makes the
    /// status false though the formula may be satisfiable.
    pub fn add_clause(&mut self, clause: Clause) -> (r: Result<bool, String>)
        requires
            old(self).inv(),
            clause.wf(),
            formula_size(old(self).formula()) + clause.lits().len() <= usize::MAX,
            forall|i: int|
                0 <= i < clause.lits().len() ==> (#[trigger] clause.lits()[i]).var.num < usize::MAX,
        ensures
            final(self).inv(),
            final(self).log_frequency() == old(self).log_frequency(),
            final(self).iterations() == old(self).iterations(),
            final(self).fresh() == old(self).fresh(),
            final(self).state().unsat == old(self).state().unsat + (if final(self).state().indexed
                != old(self).state().indexed {
                1int
            } else {
                0int
            }),
            match r {
                Ok(b) => old(self).status() && b == final(self).status() && final(self).state()
                    == ingest(old(self).state(), clause.lits()) && final(self).stale() == (old(self).stale() || (!old(self).fresh() && final(self).state().indexed != old(self).state().indexed)) && (old(self).fresh() || old(self).state().grounded()
                    ==> final(self).honest() && (final(self).status()
                    ==> final(self).state().grounded())),
                Err(e) => !old(self).status() && e@ == "The model is already UNSAT"@ && final(self).state() == old(self).state() && final(self).stale() == old(self).stale(),
            },
    {
        if self.status {
            let ghost s0 = self.state();
            let ghost cl = clause.lits();
            let mut clause = clause;
            if clause.len() != clause.total() {
                clause.restore_all();
            }
            proof {
                lemma_count_full(clause.marks(), false);
                lemma_max_index(cl);
                if !self.touched {
                    lemma_unit_values_grounded(s0.lits, s0.lits.len(), s0.value.len());
                }
            }
            if clause.len() == 0 {
                proof {
                    lemma_refuted_unsat(s0, cl);
                }
                self.record_refuted(clause);
                return Ok(self.status);
            }
            if let Some(var_num) = clause.get_max() {
                while var_num >= self.num_var
                    invariant
                        self.inv(),
                        self.status(),
                        self.fresh() == old(self).fresh(),
                        self.stale() == old(self).stale(),
                        self.formula() == s0.lits,
                        self.log_frequency() == old(self).log_frequency(),
                        self.iterations() == old(self).iterations(),
                        self.state() == grown(s0, self.num_var as nat),
                        self.state().unsat == s0.unsat,
                        self.state().indexed == s0.indexed,
                        s0.grounded() ==> self.state().grounded(),
                        var_num < usize::MAX,
                        s0.value.len() <= self.num_vars(),
                        self.num_vars() <= (if var_num >= s0.value.len() {
                            var_num + 1
                        } else {
                            s0.value.len() as int
                        }),
                    decreases var_num + 1 - self.num_var,
                {
                    proof {
                        crate::ingest::lemma_new_var(self.state());
                    }
                    self.new_var();
                }
            }
            let ghost g = self.state();
            proof {
                if self.touched {
                    if !self.stale {
                        lemma_core_slack(g);
                    }
                    assert(slack_inv(g));
                }
                assert(self.num_vars() == vars_after(s0.value.len(), cl));
                assert(g == grown(s0, vars_after(s0.value.len(), cl)));
                lemma_unit_values(g.lits, g.lits.len(), g.value.len());
                lemma_unit_values_frame(g.lits, g.lits.push(cl), g.lits.len(), g.value.len());
                assert(g.lits.push(cl)[g.lits.len() as int] == cl);
            }
            if clause.len() == 1 {
                proof {
                    lemma_count_pos(clause.marks(), false, 0);
                    lemma_first_eq_is(clause.marks(), false, 0);
                }
                let lit = clause.get_first().unwrap();
                let v = lit.var_num();
                if lit.get_value().equals(self.model.var[v]) {
                    if self.model.var[v] == VarValue::VUndef {
                        self.model.var[v] = lit.get_value();
                        proof {
                            lemma_loose_set_value(g, v as int, lit.polarity());
                            assert(self.state() == with_value(g, v as int, lit.polarity()));
                            assert(cl =~= seq![lit]);
                            if self.touched {
                                lemma_slack_set_value(g, v as int, lit.polarity());
                            }
                        }
                        self.record_indexed(clause);
                        proof {
                            if g.grounded() {
                                lemma_grounded_unit(g, self.state(), lit);
                            }
                        }
                    }
                } else {
                    proof {
                        assert(no_true(g, cl)) by {
                            assert forall|p: int| 0 <= p < cl.len() implies !g.lit_true(
                                #[trigger] cl[p],
                            ) by {
                                assert(cl[p] == lit);
                            }
                        }
                        if g.grounded() {
                            lemma_refuted_unsat(g, cl);
                        }
                    }
                    self.record_refuted(clause);
                }
            } else {
                self.record_indexed(clause);
                proof {
                    if g.grounded() {
                        lemma_grounded_recorded(g, self.state(), cl);
                    }
                }
            }
            Ok(self.status)
        } else {
            Err("The model is already UNSAT".to_owned())
        }
    }

    /// Makes a clause of the literals and adds it, as `add_clause` does.
    pub fn add_clause_from_lits(&mut self, lits: Vec<Lit>) -> (r: Result<bool, String>)
        requires
            old(self).inv(),
            formula_size(old(self).formula()) + lits@.len() <= usize::MAX,
            forall|i: int| 0 <= i < lits@.len() ==> (#[trigger] lits@[i]).var.num < usize::MAX,
        ensures
            final(self).inv(),
            final(self).log_frequency() == old(self).log_frequency(),
            final(self).iterations() == old(self).iterations(),
            final(self).fresh() == old(self).fresh(),
            final(self).state().unsat == old(self).state().unsat + (if final(self).state().indexed
                != old(self).state().indexed {
                1int
            } else {
                0int
            }),
            match r {
                Ok(b) => old(self).status() && b == final(self).status() && final(self).state()
                    == ingest(old(self).state(), lits@) && final(self).stale() == (old(self).stale() || (!old(self).fresh() && final(self).state().indexed != old(self).state().indexed)) && (old(self).fresh() || old(self).state().grounded()
                    ==> final(self).honest() && (final(self).status()
                    ==> final(self).state().grounded())),
                Err(e) => !old(self).status() && e@ == "The model is already UNSAT"@ && final(self).state() == old(self).state() && final(self).stale() == old(self).stale(),
            },
    {
        let mut c = Clause::new();
        let mut i: usize = 0;
        while i < lits.len()
            invariant
                0 <= i <= lits@.len(),
                c.wf(),
                c.lits() == lits@.take(i as int),
            decreases lits@.len() - i,
        {
            c.push(lits[i]);
            proof {
                assert(lits@.take(i + 1) =~= lits@.take(i as int).push(lits@[i as int]));
            }
            i += 1;
        }
        proof {
            assert(lits@.take(i as int) =~= lits@);
        }
        self.add_clause(c)
    }
}

} // verus!
