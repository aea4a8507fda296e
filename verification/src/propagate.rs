//! Carrying the value of one variable through the clauses in which the
//! variable occurs, and taking it back out of them.

use crate::assignset::AssignmentSet;
use crate::clause::Clause;
use crate::course::{
    carried, carried_hit, carried_picks, fwd_hit, fwd_picks, fwd_run, picks_of, sat_run, side,
    undo_picks, undo_run,
};
use crate::count::count_eq;
use crate::cursor::{cur_c, cur_p};
use crate::slack::{
    fwd_weak, lemma_fwd_weak_end, lemma_fwd_weak_start, lemma_fwd_weak_step, lemma_sat_weak_end,
    lemma_sat_weak_start, lemma_sat_weak_step, sat_pass_weak, slack_inv,
};
use crate::formula::{sat_under, up_ok};
use crate::lit::VarValue;
use crate::passes::{
    same_frame,
    forward_of, fwd_inv, fwd_step, lemma_fwd_end, lemma_fwd_start, lemma_fwd_step,
    lemma_sat_pass_end, lemma_sat_pass_start, lemma_sat_pass_step, lemma_sat_unpass_end,
    lemma_sat_unpass_start, lemma_shape_frame, lemma_undo_end, lemma_undo_start, lemma_undo_step,
    pass_pre, sat_pass_inv, sat_step, undo_inv, undo_step,
};
use crate::solver::{lits_of, marks_of, Solver};
use crate::state::{lit_of, State};
use vstd::prelude::*;

verus! {

/// Replacing one clause by one with the same literals changes the marks of
/// that clause and nothing else.
pub proof fn lemma_clause_update(cl0: Seq<Clause>, cl1: Seq<Clause>, c: int)
    requires
        0 <= c < cl0.len(),
        cl1 == cl0.update(c, cl1[c]),
        cl1[c].lits() == cl0[c].lits(),
    ensures
        lits_of(cl1) == lits_of(cl0),
        marks_of(cl1) == marks_of(cl0).update(c, cl1[c].marks()),
{
    assert(lits_of(cl1) =~= lits_of(cl0));
    assert(marks_of(cl1) =~= marks_of(cl0).update(c, cl1[c].marks()));
}

impl Solver {
    /// Runs over the positions at which the variable occurs with the
    /// polarity of its value, and counts the literal there as true (`forward`)
    /// or no longer as true.
    fn pass_true_side(
        &mut self,
        var: usize,
        pol: bool,
        forward: bool,
        Ghost(s0): Ghost<State>,
        Ghost(strict): Ghost<bool>,
    )
        requires
            old(self).wf(),
            s0.shape(),
            s0.indexed == s0.lits.len(),
            var < s0.value.len(),
            s0.var_map_ok(var as int),
            !s0.lit_true(lit_of(var as int, pol)),
            strict ==> sat_pass_inv(
                old(self).state(),
                s0,
                lit_of(var as int, pol),
                cur_c(if pol { s0.pos[var as int] } else { s0.neg[var as int] }, 0, s0.indexed as int),
                cur_p(if pol { s0.pos[var as int] } else { s0.neg[var as int] }, 0),
                forward,
            ),
            !strict ==> forward && sat_pass_weak(
                old(self).state(),
                s0,
                lit_of(var as int, pol),
                cur_c(if pol { s0.pos[var as int] } else { s0.neg[var as int] }, 0, s0.indexed as int),
                cur_p(if pol { s0.pos[var as int] } else { s0.neg[var as int] }, 0),
            ),
        ensures
            final(self).wf(),
            final(self).state().marks == old(self).state().marks,
            final(self).state().expected == old(self).state().expected,
            final(self).state().propagated == old(self).state().propagated,
            final(self).iter_num == old(self).iter_num,
            final(self).touched == old(self).touched,
            final(self).stale == old(self).stale,
            strict ==> sat_pass_inv(
                final(self).state(),
                s0,
                lit_of(var as int, pol),
                s0.indexed as int,
                0,
                forward,
            ),
            !strict ==> sat_pass_weak(
                final(self).state(),
                s0,
                lit_of(var as int, pol),
                s0.indexed as int,
                0,
            ),
            final(self).state() == sat_run(
                old(self).state(),
                side(s0, var as int, pol),
                side(s0, var as int, pol).len(),
                forward,
            ),
    {
        let ghost l = lit_of(var as int, pol);
        let ghost end = s0.indexed as int;
        let sat_list = self.model.map.get_clauses_of(var, pol);
        let ghost list = sat_list@;
        let n = sat_list.len();
        let mut i: usize = 0;
        while i < n
            invariant
                0 <= i <= n,
                n == list.len(),
                list == sat_list@,
                list == (if pol { s0.pos[var as int] } else { s0.neg[var as int] }),
                s0.shape(),
                s0.indexed == s0.lits.len(),
                s0.occ_list_ok(list, l),
                !s0.lit_true(l),
                end == s0.indexed as int,
                self.wf(),
                self.state().marks == old(self).state().marks,
                self.state().expected == old(self).state().expected,
                self.state().propagated == old(self).state().propagated,
                self.iter_num == old(self).iter_num,
                self.touched == old(self).touched,
                self.stale == old(self).stale,
                strict ==> sat_pass_inv(
                    self.state(),
                    s0,
                    l,
                    cur_c(list, i as int, end),
                    cur_p(list, i as int),
                    forward,
                ),
                !strict ==> forward && sat_pass_weak(
                    self.state(),
                    s0,
                    l,
                    cur_c(list, i as int, end),
                    cur_p(list, i as int),
                ),
                self.state() == sat_run(old(self).state(), list, i as nat, forward),
            decreases n - i,
        {
            let j = sat_list[i];
            let ghost prev = self.state();
            proof {
                if strict {
                    lemma_sat_pass_step(prev, s0, l, list, i as int, forward);
                } else {
                    lemma_sat_weak_step(prev, s0, l, list, i as int);
                }
            }
            if forward {
                if self.cnf.sat[j.0] == 0 {
                    self.len -= 1;
                }
                self.cnf.sat[j.0] += 1;
            } else {
                self.cnf.sat[j.0] -= 1;
                if self.cnf.sat[j.0] == 0 {
                    self.len += 1;
                }
            }
            proof {
                assert(self.state() == sat_step(prev, j.0 as int, forward));
            }
            i += 1;
        }
    }

    /// Runs over the positions at which the variable occurs against its
    /// value: in each clause that no true literal satisfies, the literal there
    /// is marked, and a clause left with one literal asks for its value.
    /// Returns whether a conflict was met.
    fn pass_false_forward(
        &mut self,
        var: usize,
        pol: bool,
        set: &mut AssignmentSet,
        Ghost(s0): Ghost<State>,
        Ghost(strict): Ghost<bool>,
    ) -> (result: bool)
        requires
            old(self).wf(),
            old(set).wf(),
            strict ==> pass_pre(s0, lit_of(var as int, pol)),
            var < s0.value.len(),
            s0.shape(),
            s0.indexed == s0.lits.len(),
            s0.var_map_ok(var as int),
            strict ==> fwd_inv(
                old(self).state(),
                s0,
                lit_of(var as int, pol),
                cur_c(if pol { s0.neg[var as int] } else { s0.pos[var as int] }, 0, s0.indexed as int),
                cur_p(if pol { s0.neg[var as int] } else { s0.pos[var as int] }, 0),
                false,
            ),
            !strict ==> fwd_weak(
                old(self).state(),
                s0,
                lit_of(var as int, !pol),
                if pol { s0.neg[var as int] } else { s0.pos[var as int] },
                0,
                false,
            ),
        ensures
            final(self).wf(),
            final(set).wf(),
            final(set).capacity() == old(set).capacity(),
            final(self).iter_num == old(self).iter_num,
            final(self).touched == old(self).touched,
            final(self).stale == old(self).stale,
            strict ==> fwd_inv(
                final(self).state(),
                s0,
                lit_of(var as int, pol),
                s0.indexed as int,
                0,
                result,
            ),
            !strict ==> fwd_weak(
                final(self).state(),
                s0,
                lit_of(var as int, !pol),
                side(s0, var as int, !pol),
                side(s0, var as int, !pol).len() as int,
                result,
            ),
            final(self).state().sat == old(self).state().sat,
            final(self).state().unsat == old(self).state().unsat,
            final(self).state().propagated == old(self).state().propagated,
            final(self).state() == fwd_run(
                old(self).state(),
                side(s0, var as int, !pol),
                side(s0, var as int, !pol).len(),
            ),
            result == fwd_hit(
                old(self).state(),
                side(s0, var as int, !pol),
                side(s0, var as int, !pol).len(),
            ),
            picks_of(*final(set)) == fwd_picks(
                old(self).state(),
                side(s0, var as int, !pol),
                side(s0, var as int, !pol).len(),
                picks_of(*old(set)),
            ),
    {
        let ghost sl = lit_of(var as int, pol);
        let ghost end = s0.indexed as int;
        let unsat_list = self.model.map.get_clauses_of(var, !pol);
        let ghost list = unsat_list@;
        let n = unsat_list.len();
        let mut result = false;
        let mut i: usize = 0;
        proof {
            assert(s0.var_map_ok(var as int));
            assert(sl.negated() == lit_of(var as int, !pol));
        }
        while i < n
            invariant
                0 <= i <= n,
                n == list.len(),
                list == unsat_list@,
                strict ==> pass_pre(s0, sl),
                s0.shape(),
                s0.indexed == s0.lits.len(),
                var < s0.value.len(),
                sl == lit_of(var as int, pol),
                s0.occ_list_ok(list, sl.negated()),
                end == s0.indexed as int,
                self.wf(),
                set.wf(),
                set.capacity() == old(set).capacity(),
                self.iter_num == old(self).iter_num,
                self.touched == old(self).touched,
                self.stale == old(self).stale,
                self.state().sat == old(self).state().sat,
                self.state().unsat == old(self).state().unsat,
                self.state().propagated == old(self).state().propagated,
                strict ==> fwd_inv(
                    self.state(),
                    s0,
                    sl,
                    cur_c(list, i as int, end),
                    cur_p(list, i as int),
                    result,
                ),
                !strict ==> fwd_weak(self.state(), s0, sl.negated(), list, i as int, result),
                list == side(s0, var as int, !pol),
                self.state() == fwd_run(old(self).state(), list, i as nat),
                result == fwd_hit(old(self).state(), list, i as nat),
                picks_of(*set) == fwd_picks(old(self).state(), list, i as nat, picks_of(*old(set))),
            decreases n - i,
        {
            let j = unsat_list[i];
            let ghost prev = self.state();
            let ghost old_clauses = self.cnf.clauses@;
            let ghost c = j.0 as int;
            let ghost p = j.1 as int;
            proof {
                if strict {
                    lemma_fwd_step(prev, s0, sl, list, i as int, result);
                } else {
                    lemma_fwd_weak_step(prev, s0, sl.negated(), list, i as int, result);
                }
                assert(prev.marks[c].len() == prev.lits[c].len());
            }
            if self.cnf.sat[j.0] == 0 {
                self.cnf.clauses[j.0].remove(j.1);
                proof {
                    lemma_clause_update(old_clauses, self.cnf.clauses@, c);
                    assert(self.state() == crate::passes::mark_step(prev, c, p, true));
                }
                let len = self.cnf.clauses[j.0].len();
                if len == 0 {
                    result = true;
                } else if len == 1 {
                    let lit = self.cnf.clauses[j.0].get_first().unwrap();
                    let v = lit.var_num();
                    let value = lit.get_value();
                    self.model.expected[v].1 += 1;
                    set.insert(v);
                    if self.model.expected[v].0.equals(value) {
                        self.model.expected[v].0 = value;
                    } else {
                        result = true;
                    }
                    proof {
                        assert(self.model.expected@ =~= crate::passes::ask(
                            crate::passes::mark_step(prev, c, p, true),
                            c,
                        ).expected);
                    }
                }
            }
            proof {
                assert(self.state() == fwd_step(prev, c, p));
                if strict {
                    lemma_shape_frame(self.state(), s0);
                }
                assert forall|d: int| 0 <= d < self.cnf.clauses@.len() implies (
                #[trigger] self.cnf.clauses@[d]).wf() by {
                    if d != c {
                        assert(self.cnf.clauses@[d] == old_clauses[d]);
                    }
                }
            }
            i += 1;
        }
        result
    }

    /// Runs over the positions at which the variable occurred against its
    /// value: a clause that is about to get a second literal back withdraws
    /// what it asked, and the literal at the position is unmarked.
    fn pass_false_undo(
        &mut self,
        var: usize,
        pol: bool,
        set: &mut AssignmentSet,
        Ghost(s0): Ghost<State>,
    )
        requires
            old(self).wf(),
            old(set).wf(),
            pass_pre(s0, lit_of(var as int, pol)),
            var < s0.value.len(),
            undo_inv(
                old(self).state(),
                s0,
                lit_of(var as int, pol),
                cur_c(if pol { s0.neg[var as int] } else { s0.pos[var as int] }, 0, s0.indexed as int),
                cur_p(if pol { s0.neg[var as int] } else { s0.pos[var as int] }, 0),
            ),
        ensures
            final(self).wf(),
            final(set).wf(),
            final(set).capacity() == old(set).capacity(),
            final(self).iter_num == old(self).iter_num,
            final(self).touched == old(self).touched,
            final(self).stale == old(self).stale,
            final(self).state() == s0,
            final(self).state() == undo_run(
                old(self).state(),
                side(s0, var as int, !pol),
                side(s0, var as int, !pol).len(),
            ),
            picks_of(*final(set)) == undo_picks(
                old(self).state(),
                side(s0, var as int, !pol),
                side(s0, var as int, !pol).len(),
                picks_of(*old(set)),
            ),
    {
        let ghost sl = lit_of(var as int, pol);
        let ghost end = s0.indexed as int;
        let unsat_list = self.model.map.get_clauses_of(var, !pol);
        let ghost list = unsat_list@;
        let n = unsat_list.len();
        let mut i: usize = 0;
        proof {
            assert(s0.var_map_ok(var as int));
            assert(sl.negated() == lit_of(var as int, !pol));
        }
        while i < n
            invariant
                0 <= i <= n,
                n == list.len(),
                list == unsat_list@,
                pass_pre(s0, sl),
                s0.occ_list_ok(list, sl.negated()),
                end == s0.indexed as int,
                self.wf(),
                set.wf(),
                set.capacity() == old(set).capacity(),
                self.iter_num == old(self).iter_num,
                self.touched == old(self).touched,
                self.stale == old(self).stale,
                undo_inv(self.state(), s0, sl, cur_c(list, i as int, end), cur_p(list, i as int)),
                list == side(s0, var as int, !pol),
                self.state() == undo_run(old(self).state(), list, i as nat),
                picks_of(*set) == undo_picks(old(self).state(), list, i as nat, picks_of(*old(set))),
            decreases n - i,
        {
            let j = unsat_list[i];
            let ghost prev = self.state();
            let ghost old_clauses = self.cnf.clauses@;
            let ghost c = j.0 as int;
            let ghost p = j.1 as int;
            proof {
                lemma_undo_step(prev, s0, sl, list, i as int);
                assert(prev.marks[c].len() == prev.lits[c].len());
            }
            if self.cnf.sat[j.0] == 0 && self.cnf.clauses[j.0].len() == 1 {
                let lit = self.cnf.clauses[j.0].get_first().unwrap();
                let v = lit.var_num();
                self.model.expected[v].1 -= 1;
                if self.model.expected[v].1 == 0 {
                    self.model.expected[v].0 = VarValue::VUndef;
                    set.remove(v);
                }
                proof {
                    assert(self.model.expected@ =~= crate::passes::unask(prev, c).expected);
                }
            }
            let ghost mid = self.state();
            self.cnf.clauses[j.0].restore(j.1);
            proof {
                lemma_clause_update(old_clauses, self.cnf.clauses@, c);
                assert(self.state() == crate::passes::mark_step(mid, c, p, false));
                assert(self.state() == undo_step(prev, c, p));
                lemma_shape_frame(self.state(), s0);
                assert forall|d: int| 0 <= d < self.cnf.clauses@.len() implies (
                #[trigger] self.cnf.clauses@[d]).wf() by {
                    if d != c {
                        assert(self.cnf.clauses@[d] == old_clauses[d]);
                    }
                }
            }
            i += 1;
        }
        proof {
            lemma_undo_end(self.state(), s0, sl, list);
        }
    }

    /// Carries the value of variable `var` through the clauses (`forward`),
    /// or takes it back out of them. `s0` is the state in which the variable
    /// has its value and is not propagated: the state before the forward
    /// call, to which the backward call returns.
    ///
    /// Forward, the counter of each clause in which the variable occurs with
    /// the polarity of its value goes up by one. In each clause without a
    /// true literal in which it occurs with the other polarity, the literal
    /// is marked; a clause left with one literal asks for the value of that
    /// literal, and its variable enters `set`. The result tells whether a
    /// clause was left without a literal or two clauses ask opposite values;
    /// then no assignment that agrees with the propagated values satisfies
    /// the formula. The pass is completed even then.
    ///
    /// Backward, every counter, mark and expected value is again as in `s0`;
    /// a variable of which no clause asks a value any more leaves `set`.
    pub(crate) fn propagate(
        &mut self,
        var: usize,
        value: VarValue,
        forward: bool,
        set: &mut AssignmentSet,
        Ghost(s0): Ghost<State>,
        Ghost(strict): Ghost<bool>,
    ) -> (conflict: bool)
        requires
            old(self).wf(),
            old(set).wf(),
            value != VarValue::VUndef,
            var < s0.value.len(),
            strict ==> pass_pre(s0, lit_of(var as int, value == VarValue::VTrue)),
            !strict ==> forward && slack_inv(s0) && !s0.propagated[var as int] && s0.value[var as int]
                == value,
            forward ==> old(self).state() == s0,
            !forward ==> forward_of(
                old(self).state(),
                s0,
                lit_of(var as int, value == VarValue::VTrue),
            ),
        ensures
            final(self).wf(),
            final(set).wf(),
            final(set).capacity() == old(set).capacity(),
            final(self).iter_num == old(self).iter_num,
            final(self).touched == old(self).touched,
            final(self).stale == old(self).stale,
            !strict ==> final(self).state().loose_inv() && same_frame(final(self).state(), s0)
                && final(self).state().propagated == s0.propagated.update(var as int, true)
                && final(self).state().unsat <= s0.unsat && (!conflict ==> slack_inv(
                final(self).state(),
            )),
            strict && forward ==> forward_of(
                final(self).state(),
                s0,
                lit_of(var as int, value == VarValue::VTrue),
            ) && final(self).state().base_inv(),
            strict && forward && !conflict ==> final(self).state().core_inv(),
            strict && forward && conflict ==> !sat_under(
                final(self).state().lits,
                final(self).state().assigned(),
            ) && !up_ok(final(self).state().lits, final(self).state().assigned()),
            !forward ==> final(self).state() == s0 && !conflict,
            final(self).state() == carried(
                old(self).state(),
                var as int,
                value == VarValue::VTrue,
                forward,
            ),
            conflict == (forward && carried_hit(
                old(self).state(),
                var as int,
                value == VarValue::VTrue,
            )),
            picks_of(*final(set)) == carried_picks(
                old(self).state(),
                var as int,
                value == VarValue::VTrue,
                forward,
                picks_of(*old(set)),
            ),
    {
        let pol = match value {
            VarValue::VTrue => true,
            _ => false,
        };
        let ghost sl = lit_of(var as int, pol);
        let ghost s1 = self.state();
        let ghost tlist = if pol {
            s0.pos[var as int]
        } else {
            s0.neg[var as int]
        };
        let ghost flist = if pol {
            s0.neg[var as int]
        } else {
            s0.pos[var as int]
        };
        proof {
            assert(s0.var_map_ok(var as int));
            assert(sl.negated() == lit_of(var as int, !pol));
            assert(sl.polarity() == value);
            if !strict {
            } else if forward {
                lemma_sat_pass_start(s0, sl, tlist);
            } else {
                lemma_sat_unpass_start(s1, s0, sl, tlist);
            }
        }
        self.model.propagated[var] = forward;
        proof {
            let s = self.state();
            assert(s.zero_flags() =~= s1.zero_flags());
            assert(s.propagated == s0.propagated.update(var as int, forward));
            if !strict {
                lemma_sat_weak_start(s, s0, sl, tlist);
            }
        }
        self.pass_true_side(var, pol, forward, Ghost(s0), Ghost(strict));
        if forward {
            proof {
                let s = self.state();
                assert(cur_c(tlist, tlist.len() as int, s0.indexed as int) == s0.indexed);
                if strict {
                    lemma_sat_pass_end(s, s0, sl, tlist);
                    lemma_fwd_start(s, s0, sl, flist);
                } else {
                    lemma_sat_weak_end(s, s0, sl, tlist);
                    lemma_fwd_weak_start(s, s0, sl.negated(), flist);
                }
            }
            let ghost mid = self.state();
            let result = self.pass_false_forward(var, pol, set, Ghost(s0), Ghost(strict));
            proof {
                assert(cur_c(flist, flist.len() as int, s0.indexed as int) == s0.indexed);
                if strict {
                    lemma_fwd_end(self.state(), s0, sl, flist, result);
                } else {
                    let t = self.state();
                    assert(t.zero_flags() =~= mid.zero_flags());
                    assert forall|c: int| 0 <= c < t.lits.len() implies #[trigger] t.sat[c]
                        <= count_eq(t.true_flags(c), true) by {
                        assert(t.true_flags(c) =~= mid.true_flags(c));
                        assert(mid.sat[c] <= count_eq(mid.true_flags(c), true));
                    }
                    lemma_fwd_weak_end(t, s0, sl.negated(), flist, result);
                }
            }
            result
        } else {
            proof {
                let s = self.state();
                assert(cur_c(tlist, tlist.len() as int, s0.indexed as int) == s0.indexed);
                lemma_sat_unpass_end(s, s0, sl, tlist);
                assert(s.propagated =~= s0.propagated);
                lemma_undo_start(s, s1, s0, sl, flist);
            }
            self.pass_false_undo(var, pol, set, Ghost(s0));
            false
        }
    }
}

} // verus!
