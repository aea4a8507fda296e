//! Searching for a satisfying assignment: unit propagation to a fixed
//! point, the backtracking search, and the return to the state before them.

use crate::assignset::AssignmentSet;
use crate::count::{count_eq, lemma_count_pos, lemma_first_eq_is};
use crate::course::{
    assign_found, assign_run, Back, carried, chosen_var, Config, decision, first_free, free_seen,
    lemma_run_more, lemma_scan_stops, lemma_simplified_more, Outcome, picks_of, run, run_takes,
    scan, search_ends, search_takes,
    searched, simplified, start_of, step, unwound,
};
use crate::formula::{closed, model_satisfies, sat_under, satisfiable, up_ok, within};
use crate::fresh::{
    lemma_blank_base, lemma_blank_core, lemma_grounded_refuted, lemma_set_value,
    lemma_unit_value_grounded, lemma_unit_values_grounded, lemma_unit_var_free, with_value,
};
use crate::lit::{Lit, VarValue};
use crate::loose::blanked;
use crate::passes::same_frame;
use crate::propagate::lemma_clause_update;
use crate::slack::{lemma_slack_set_value, slack_inv};
use crate::solver::{lits_of, Solver};
use crate::state::{State, unit_values};
use crate::trail::{
    chain_ok, Frame, frame_ok, lemma_frame_step, lemma_pow4_pos, lemma_weight_nonneg,
    lemma_weight_push, measure, pow4, weight,
};
use vstd::prelude::*;

verus! {

impl Solver {
    /// Returns the solver to the state before any search: nothing is
    /// propagated, counted, marked or expected, and a variable has a value
    /// exactly where a clause of one literal gives it one (the last such
    /// clause, where several speak of one variable). The formula and the
    /// status stay.
    pub fn reset(&mut self)
        requires
            old(self).inv(),
        ensures
            final(self).inv(),
            was_reset(*old(self), *final(self)),
    {
        let ghost s0 = self.state();
        let n = self.model.len();
        let mut i: usize = 0;
        while i < n
            invariant
                0 <= i <= n,
                n == s0.value.len(),
                self.model.var@.len() == n,
                self.model.propagated@.len() == n,
                self.model.expected@.len() == n,
                self.cnf == old(self).cnf,
                self.model.map == old(self).model.map,
                self.len == old(self).len,
                self.num_var == old(self).num_var,
                self.status == old(self).status,
                self.iter_num == old(self).iter_num,
                self.indexed == old(self).indexed,
                self.size == old(self).size,
                self.iterations == old(self).iterations,
                forall|j: int| 0 <= j < i ==> !#[trigger] self.model.propagated@[j],
                forall|j: int|
                    0 <= j < i ==> #[trigger] self.model.expected@[j] == (
                        VarValue::VUndef,
                        0usize,
                    ),
                forall|j: int| 0 <= j < i ==> #[trigger] self.model.var@[j] == VarValue::VUndef,
            decreases n - i,
        {
            self.model.propagated[i] = false;
            self.model.expected[i] = (VarValue::VUndef, 0);
            self.model.var[i] = VarValue::VUndef;
            i += 1;
        }
        let m = self.cnf.len();
        let mut i: usize = 0;
        proof {
            assert(self.model.var@ =~= unit_values(s0.lits, 0, n as nat));
        }
        while i < m
            invariant
                0 <= i <= m,
                m == s0.lits.len(),
                n == s0.value.len(),
                s0.shape(),
                self.cnf.clauses@.len() == m,
                self.cnf.sat@.len() == m,
                self.model.var@.len() == n,
                self.model.propagated@.len() == n,
                self.model.expected@.len() == n,
                self.model.map == old(self).model.map,
                self.len == old(self).len,
                self.num_var == old(self).num_var,
                self.status == old(self).status,
                self.iter_num == old(self).iter_num,
                self.indexed == old(self).indexed,
                self.size == old(self).size,
                self.iterations == old(self).iterations,
                forall|j: int| 0 <= j < n ==> !#[trigger] self.model.propagated@[j],
                forall|j: int|
                    0 <= j < n ==> #[trigger] self.model.expected@[j] == (
                        VarValue::VUndef,
                        0usize,
                    ),
                forall|c: int| 0 <= c < m ==> (#[trigger] self.cnf.clauses@[c]).wf(),
                lits_of(self.cnf.clauses@) == s0.lits,
                forall|c: int| 0 <= c < i ==> #[trigger] self.cnf.sat@[c] == 0,
                forall|c: int| 0 <= c < i ==> (#[trigger] self.cnf.clauses@[c]).unmarked(),
                self.model.var@ == unit_values(s0.lits, i as nat, n as nat),
            decreases m - i,
        {
            let ghost cl0 = self.cnf.clauses@;
            self.cnf.sat[i] = 0;
            self.cnf.clauses[i].restore_all();
            proof {
                lemma_clause_update(cl0, self.cnf.clauses@, i as int);
                assert(self.cnf.clauses@[i as int].lits() == s0.lits[i as int]);
                assert forall|c: int| 0 <= c < m implies (#[trigger] self.cnf.clauses@[c]).wf() by {
                    if c != i {
                        assert(self.cnf.clauses@[c] == cl0[c]);
                    }
                }
                assert forall|c: int| 0 <= c < i + 1 implies (
                #[trigger] self.cnf.clauses@[c]).unmarked() by {
                    if c != i {
                        assert(self.cnf.clauses@[c] == cl0[c]);
                    }
                }
            }
            if self.cnf.clauses[i].len() == 1 {
                proof {
                    let cl = self.cnf.clauses@[i as int];
                    crate::count::lemma_count_pos(cl.marks(), false, 0);
                    lemma_first_eq_is(cl.marks(), false, 0);
                    assert(s0.lits[i as int][0].var.num < s0.value.len());
                }
                let lit = self.cnf.clauses[i].get_first().unwrap();
                self.model.var[lit.var_num()] = lit.get_value();
            }
            i += 1;
        }
        self.len = self.indexed;
        self.touched = false;
        self.stale = false;
        proof {
            let t = self.state();
            assert(t.lits == s0.lits);
            assert forall|c: int| 0 <= c < t.lits.len() implies (#[trigger] t.marks[c]).len()
                == t.lits[c].len() && t.lits[c].len() <= usize::MAX by {
                assert(self.cnf.clauses@[c].wf());
                assert(s0.marks[c].len() == s0.lits[c].len());
            }
            crate::fresh::lemma_unit_values(s0.lits, m as nat, n as nat);
            assert(t.shape());
            assert(t.map_ok()) by {
                assert forall|v: int| 0 <= v < t.value.len() implies #[trigger] t.var_map_ok(v) by {
                    assert(s0.var_map_ok(v));
                }
            }
            assert(t.blank()) by {
                assert forall|c: int, p: int|
                    0 <= c < t.marks.len() && 0 <= p < t.marks[c].len() implies !#[trigger] t.marks[c][p] by {
                    assert(self.cnf.clauses@[c].unmarked());
                }
            }
            lemma_blank_base(t);
            let want = blanked(s0);
            assert(t.propagated =~= want.propagated);
            assert(t.sat =~= want.sat);
            assert(t.expected =~= want.expected);
            assert forall|c: int| 0 <= c < t.marks.len() implies t.marks[c] == want.marks[c] by {
                assert forall|p: int| 0 <= p < t.marks[c].len() implies t.marks[c][p]
                    == want.marks[c][p] by {
                    assert(!t.marks[c][p]);
                }
                assert(t.marks[c] =~= want.marks[c]);
            }
            assert(t.marks =~= want.marks);
            assert(t == want);
            if self.status {
                assert(t.all_nonempty()) by {
                    assert forall|c: int| 0 <= c < t.lits.len() implies (#[trigger] t.lits[c]).len()
                        > 0 by {
                        assert(s0.lits[c].len() > 0);
                    }
                }
                lemma_blank_core(t);
                lemma_unit_values_grounded(t.lits, t.lits.len(), t.value.len());
            }
            if old(self).fresh() && old(self).status() {
                assert(t.propagated =~= s0.propagated);
                assert(t.sat =~= s0.sat);
                assert(t.expected =~= s0.expected);
                assert forall|c: int| 0 <= c < t.marks.len() implies t.marks[c] == s0.marks[c] by {
                    assert(t.marks[c].len() == t.lits[c].len());
                    assert(s0.marks[c].len() == s0.lits[c].len());
                    assert forall|p: int| 0 <= p < t.marks[c].len() implies t.marks[c][p]
                        == s0.marks[c][p] by {
                        assert(!t.marks[c][p]);
                        assert(!s0.marks[c][p]);
                    }
                    assert(t.marks[c] =~= s0.marks[c]);
                }
                assert(t.marks =~= s0.marks);
                assert(t == s0);
            }
        }
    }

    /// Carries every value that is there to be carried through the clauses,
    /// gives the variables of which clauses with one literal left ask a value
    /// that value, and so on until nothing is left to do or a conflict is met.
    /// Returns the status, which a conflict makes false.
    ///
    /// Flags of propagation are only set, never cleared; the count of
    /// clauses without a true literal does not grow; the values that were
    /// there stay; and where the result is true, every variable with a value
    /// is propagated. The state at the end is the one that the course of the
    /// simplification leads to.
    ///
    /// On a solver that is not stale the result is true exactly when unit
    /// propagation from the values meets no conflict. Then the values are the
    /// least that keep the values that were there and are closed under unit
    /// propagation, and no clause without a true literal has exactly one
    /// unmarked literal. On a stale solver the counters and marks say nothing
    /// of the literals that had a propagated variable when their clause was
    /// added, and the passes go by the counters and marks as they are.
    #[verifier::rlimit(40)]
    pub fn simplify(&mut self) -> (r: bool)
        requires
            old(self).inv(),
        ensures
            final(self).inv(),
            r == final(self).status(),
            final(self).formula() == old(self).formula(),
            final(self).num_vars() == old(self).num_vars(),
            final(self).log_frequency() == old(self).log_frequency(),
            final(self).stale() == old(self).stale(),
            !old(self).status() ==> final(self).state() == old(self).state() && final(self).fresh()
                == old(self).fresh(),
            old(self).status() ==> !final(self).fresh(),
            old(self).status() ==> simplifies_to(old(self).state(), final(self).state(), r),
            old(self).status() ==> final(self).state().unsat <= old(self).state().unsat,
            old(self).status() ==> forall|v: int|
                0 <= v < old(self).num_vars() && old(self).state().propagated[v]
                    ==> #[trigger] final(self).state().propagated[v],
            old(self).status() ==> within(old(self).model(), final(self).model()),
            r ==> final(self).state().settled(),
            old(self).status() && !old(self).stale() ==> final(self).honest() && r == up_ok(
                old(self).formula(),
                old(self).model(),
            ),
            r && !old(self).stale() ==> no_unit(final(self).state()) && least_closed(
                old(self).formula(),
                old(self).model(),
                final(self).model(),
            ),
            r && !old(self).stale() && old(self).state().grounded()
                ==> final(self).state().grounded(),
    {
        if self.status {
            let ghost strict = !self.stale;
            self.touched = true;
            let mut set = AssignmentSet::new(0);
            let ghost f0 = self.state().lits;
            let ghost v0 = self.state().value;
            let ghost start = self.state();
            let ghost mut rounds: nat = 0;
            loop
                invariant_except_break
                    forall|k: nat|
                        k > 0 ==> simplified(start, rounds + k) == #[trigger] simplified(
                            self.state(),
                            k,
                        ),
                invariant
                    start == old(self).state(),
                    self.wf(),
                    set.wf(),
                    self.status,
                    self.touched,
                    self.stale == old(self).stale,
                    strict == !self.stale,
                    self.iter_num == old(self).iter_num,
                    strict ==> self.state().core_inv(),
                    !strict ==> slack_inv(self.state()),
                    self.state().all_nonempty(),
                    strict ==> self.state().grounded() || (self.state().unsat == 0 && self.state().settled()),
                    self.state().lits == f0,
                    f0 == old(self).formula(),
                    v0 == old(self).state().value,
                    v0.len() == old(self).num_vars(),
                    strict && start.grounded() ==> self.state().grounded(),
                    self.state().unsat <= start.unsat,
                    forall|v: int|
                        0 <= v < v0.len() && start.propagated[v] ==> #[trigger] self.state().propagated[v],
                    old(self).status(),
                    self.state().value.len() == v0.len(),
                    forall|v: int|
                        0 <= v < v0.len() && v0[v] != VarValue::VUndef ==> #[trigger] self.state().value[v]
                            == v0[v],
                    strict ==> keeps_below(f0, v0, self.state().value),
                ensures
                    self.state().settled(),
                    strict ==> no_unit(self.state()),
                    simplifies_to(old(self).state(), self.state(), true),
                decreases
                        2 * count_eq(self.state().propagated, false) + if self.state().settled() {
                            1int
                        } else {
                            0int
                        },
            {
                let ghost head = self.state();
                let mut propagated = false;
                let ghost mut hit = false;
                let n = self.num_var;
                let mut i: usize = 0;
                while i < n
                    invariant
                        0 <= i <= n,
                        n == head.value.len(),
                        head.shape(),
                        self.wf(),
                        set.wf(),
                        self.status,
                        self.touched,
                        self.stale == old(self).stale,
                    strict == !self.stale,
                        self.iter_num == old(self).iter_num,
                        strict ==> self.state().core_inv(),
                    !strict ==> slack_inv(self.state()),
                        self.state().all_nonempty(),
                        strict ==> self.state().grounded() || (self.state().unsat == 0
                            && self.state().settled()),
                        self.state().lits == f0,
                        f0 == old(self).formula(),
                        v0 == old(self).state().value,
                        v0.len() == old(self).num_vars(),
                        strict && start.grounded() ==> self.state().grounded(),
                        self.state().unsat <= start.unsat,
                        forall|v: int|
                            0 <= v < v0.len() && start.propagated[v]
                                ==> #[trigger] self.state().propagated[v],
                        old(self).status(),
                        head.value.len() == v0.len(),
                        forall|v: int|
                            0 <= v < v0.len() && v0[v] != VarValue::VUndef ==> #[trigger] head.value[v]
                                == v0[v],
                        strict ==> keeps_below(f0, v0, head.value),
                        self.state().value == head.value,
                        self.state().propagated.len() == n,
                        forall|v: int|
                            i <= v < n ==> #[trigger] self.state().propagated[v]
                                == head.propagated[v],
                        forall|v: int|
                            0 <= v < i && #[trigger] self.state().value[v] != VarValue::VUndef
                                ==> self.state().propagated[v],
                        !propagated ==> forall|v: int|
                            0 <= v < i ==> #[trigger] self.state().propagated[v],
                        hit ==> count_eq(self.state().propagated, false) < count_eq(
                            head.propagated,
                            false,
                        ),
                        !hit ==> self.state() == head,
                        start == old(self).state(),
                        simplified(start, rounds + 1) == simplified(head, 1),
                        scan(head, i as nat) == (self.state(), false),
                        propagated == free_seen(head.propagated, i as nat),
                    decreases n - i,
                {
                    if !self.model.propagated[i] {
                        propagated = true;
                        let var = self.model.var[i];
                        if var != VarValue::VUndef {
                            let ghost s = self.state();
                            let ghost sl = crate::state::lit_of(i as int, var == VarValue::VTrue);
                            proof {
                                assert(s.value[i as int] != VarValue::VUndef);
                                assert(!s.settled());
                                assert(sl.polarity() == var);
                            }
                            let empty = self.propagate(i, var, true, &mut set, Ghost(s), Ghost(strict));
                            proof {
                                let t = self.state();
                                assert(t.propagated == s.propagated.update(i as int, true));
                                crate::count::lemma_count_update(s.propagated, i as int, true, false);
                                hit = true;
                                assert(t.lits == s.lits && t.value == s.value);
                                if strict {
                                    assert(t.grounded());
                                    crate::passes::lemma_forward_unsat(t, s, sl);
                                }
                            }
                            if empty {
                                proof {
                                    lemma_scan_stops(head, (i + 1) as nat, n as nat);
                                    let t = self.state();
                                    if strict {
                                        lemma_grounded_refuted(t);
                                        assert forall|w: Seq<VarValue>| within(v0, w) implies !#[trigger] closed(
                                            f0,
                                            w,
                                        ) by {
                                            if closed(f0, w) {
                                                assert(within(t.value, w));
                                                crate::fresh::lemma_within_assigned(t, w);
                                            }
                                        }
                                        crate::fresh::lemma_status_frame(t, false);
                                    }
                                    crate::loose::lemma_loose_status_frame(t, false);
                                }
                                self.status = false;
                                proof {
                                    assert(simplified(head, 1) == Some((self.state(), false)));
                                }
                                return false;
                            }
                        }
                    }
                    i += 1;
                }
                proof {
                    assert(self.state().settled());
                }
                if !propagated {
                    proof {
                        let t = self.state();
                        if strict {
                            assert forall|c: int| 0 <= c < t.lits.len() implies !(
                            #[trigger] t.sat[c] == 0 && t.live(c) == 1) by {
                                if t.sat[c] == 0 && t.live(c) == 1 {
                                    lemma_unit_var_free(t, c);
                                }
                            }
                        }
                        assert(simplified(head, 1) == Some((t, true)));
                    }
                    break;
                }
                let ghost before = self.state();
                let more = self.perform_assignments(Ghost(strict));
                if !more {
                    proof {
                        assert(simplified(head, 1) == Some((self.state(), true)));
                    }
                    break;
                }
                proof {
                    let t = self.state();
                    assert(t.lits == f0);
                    assert forall|v: int|
                        0 <= v < v0.len() && v0[v] != VarValue::VUndef implies #[trigger] t.value[v]
                        == v0[v] by {
                        assert(before.value[v] == v0[v]);
                        assert(before.propagated[v]);
                    }
                    if strict {
                        assert forall|w: Seq<VarValue>|
                            within(v0, w) && #[trigger] closed(f0, w) implies within(t.value, w) by {
                            assert(within(before.value, w));
                        }
                    }
                    assert(t.all_nonempty());
                    if !hit {
                        assert(head.settled());
                    }
                    assert forall|k: nat| k > 0 implies simplified(start, rounds + 1 + k)
                        == #[trigger] simplified(t, k) by {
                        assert(simplified(start, rounds + (k + 1)) == simplified(
                            head,
                            (k + 1) as nat,
                        ));
                    }
                    rounds = rounds + 1;
                }
            }
            proof {
                if strict {
                    crate::fresh::lemma_fixpoint_closed(self.state());
                }
            }
        }
        self.status
    }

    /// Decides whether the formula is satisfiable, and returns the status:
    /// true exactly when it is, unless the status was false already. Then the values satisfy it: every clause has
    /// a literal whose variable has the literal's polarity as its value. A
    /// variable that the search did not need may be left without a value.
    ///
    /// The search first simplifies. Then it decides variable after variable
    /// and carries each value through the clauses; after a conflict it takes
    /// decisions back, the last first, up to one whose other polarity is
    /// still to be tried. Where none is left, the formula is unsatisfiable
    /// and the status becomes false.
    #[verifier::rlimit(40)]
    pub fn solve(&mut self) -> (r: bool)
        requires
            old(self).inv(),
        ensures
            final(self).inv(),
            solved(*old(self), *final(self), r),
    {
        if self.status {
            proof {
                let s = self.state();
                crate::fresh::lemma_unit_values(s.lits, s.lits.len(), s.value.len());
            }
            if self.stale {
                self.reset();
            }
            let ghost s_old = self.state();
            if !self.simplify() {
                self.iterations = 0;
                proof {
                    let fuel = choose|fuel: nat| simplified(s_old, fuel) == Some((self.state(), false));
                    assert(searched(s_old, fuel) == Some((false, self.state())));
                    assert(search_takes(s_old, 0));
                    assert(s_old == old(self).start());
                    assert(self.honest());
                    assert(self.state().value.len() == old(self).state().value.len());
                    assert(search_ends(old(self).start(), self.state(), false));
                }
                return false;
            }
            let ghost t0 = self.state();
            let ghost fuel1 = choose|fuel: nat| simplified(s_old, fuel) == Some((t0, true));
            if self.len == 0 {
                self.iterations = 0;
                proof {
                    crate::trail::lemma_solved(self.state());
                    assert(searched(s_old, fuel1) == Some((true, t0)));
                    assert(search_takes(s_old, 0));
                    assert(s_old == old(self).start());
                    assert(self.state().value.len() == old(self).state().value.len());
                    assert(search_ends(old(self).start(), self.state(), true));
                }
                return true;
            }
            let ghost f0 = self.state().lits;
            let ghost n0 = self.state().value.len();
            let mut hist = Vec::<Frame>::new();
            let mut cnt: usize = 0;
            let mut next_lit: Option<Frame> = None;
            let mut front_pt: usize = 0;
            let mut set = AssignmentSet::new(self.num_var);
            let ghost mut chain: Seq<State> = seq![self.state()];
            let ghost mut steps: nat = 0;
            let mut answer = true;
            proof {
                crate::fresh::lemma_grounded_start(self.state());
                assert(hist@ =~= Seq::<Frame>::empty());
                assert(picks_of(set) == start_of(t0).set);
            }
            loop
                invariant_except_break
                    cnt == (if steps <= usize::MAX {
                        steps as usize
                    } else {
                        usize::MAX
                    }),
                    self.searching(hist@, chain, next_lit, front_pt as int, f0, n0),
                    forall|k: nat|
                        k > 0 ==> run(start_of(t0), steps + k) == #[trigger] run(
                            Config {
                                s: self.state(),
                                set: picks_of(set),
                                hist: hist@,
                                next: next_lit,
                                front: front_pt as int,
                            },
                            k,
                        ),
                invariant
                    set.wf(),
                    set.capacity() == n0,
                    old(self).status(),
                    self.iter_num == old(self).iter_num,
                    self.touched,
                    !self.stale,
                    self.wf(),
                    f0 == old(self).formula(),
                    n0 == old(self).num_vars(),
                    self.state().lits == f0,
                    self.state().value.len() == n0,
                    s_old == old(self).start(),
                    simplified(s_old, fuel1) == Some((t0, true)),
                    t0.unsat != 0,
                    run(start_of(t0), steps) is None,
                ensures
                    cnt == (if steps + 1 <= usize::MAX {
                        (steps + 1) as usize
                    } else {
                        usize::MAX
                    }),
                    answer == self.status,
                    self.state().base_inv(),
                    answer ==> self.state().all_nonempty() && self.state().core_inv()
                        && self.state().settled() && self.state().unsat == 0,
                    !answer ==> !satisfiable(f0),
                    run(start_of(t0), steps + 1) == Some((answer, self.state())),
                decreases
                        measure(
                            hist@,
                            count_eq(self.state().propagated, false) as int,
                            next_lit is Some,
                        ),
            {
                let ghost here = Config {
                    s: self.state(),
                    set: picks_of(set),
                    hist: hist@,
                    next: next_lit,
                    front: front_pt as int,
                };
                if cnt < usize::MAX {
                    cnt += 1;
                }
                let went = self.search_step(
                    &mut hist,
                    next_lit,
                    front_pt,
                    &mut set,
                    Ghost(chain),
                    Ghost(f0),
                    Ghost(n0),
                );
                match went.0 {
                    Some(found) => {
                        answer = found;
                        proof {
                            assert(run(here, 1) == Some((found, self.state())));
                        }
                        break;
                    },
                    None => {
                        next_lit = went.1;
                        front_pt = went.2;
                        proof {
                            chain = went.3@;
                            let there = Config {
                                s: self.state(),
                                set: picks_of(set),
                                hist: hist@,
                                next: next_lit,
                                front: front_pt as int,
                            };
                            assert forall|k: nat| k > 0 implies run(start_of(t0), steps + 1 + k)
                                == #[trigger] run(there, k) by {
                                assert(run(start_of(t0), steps + (k + 1)) == run(
                                    here,
                                    (k + 1) as nat,
                                ));
                            }
                            assert(run(start_of(t0), steps + 1) == run(here, 1));
                            assert(run(there, 0) is None);
                            steps = steps + 1;
                        }
                    },
                }
            }
            self.iterations = cnt;
            proof {
                if answer {
                    crate::trail::lemma_solved(self.state());
                }
                let fuel = if fuel1 <= steps + 1 {
                    steps + 1
                } else {
                    fuel1
                };
                lemma_simplified_more(s_old, fuel1, fuel);
                lemma_run_more(start_of(t0), steps + 1, fuel);
                assert(searched(s_old, fuel) == Some((answer, self.state())));
                assert(run_takes(start_of(t0), steps + 1));
                assert(search_takes(s_old, steps + 1));
            }
        } else {
            proof {
                assert(searched(self.state(), 1) == Some((false, self.state())));
            }
        }
        self.status
    }

    /// What holds where a search stands between two steps.
    pub open(crate) spec fn searching(
        &self,
        hist: Seq<Frame>,
        chain: Seq<State>,
        next: Option<Frame>,
        front: int,
        f0: Seq<Seq<Lit>>,
        n0: nat,
    ) -> bool {
        let s = self.state();
        &&& self.wf()
        &&& self.status
        &&& self.touched
        &&& !self.stale
        &&& s.lits == f0
        &&& s.value.len() == n0
        &&& s.all_nonempty()
        &&& s.core_inv()
        &&& s.settled()
        &&& s.unsat > 0
        &&& 0 <= front <= n0
        &&& forall|v: int| 0 <= v < front ==> #[trigger] s.propagated[v]
        &&& chain_ok(hist, chain)
        &&& chain.last() == s
        &&& chain[0].core_inv()
        &&& chain[0].lits == f0
        &&& satisfiable(f0) ==> sat_under(f0, chain[0].assigned())
        &&& next matches Some(f) ==> f.1 is None && 0 <= f.0.var_index() < n0
            && !s.propagated[f.0.var_index()] && (sat_under(f0, s.assigned()) ==> sat_under(
            f0,
            s.assigned().update(f.0.var_index(), f.0.polarity()),
        ))
    }

    /// One step of a search: chooses a decision, unless `next_lit` gives
    /// one, and carries its value through the clauses; after a conflict takes
    /// decisions back. Returns the answer where the search has ended, and
    /// else the decision to take next, where it is known, and the new
    /// `front_pt`.
    fn search_step(
        &mut self,
        hist: &mut Vec<Frame>,
        next_lit: Option<Frame>,
        front_pt: usize,
        set: &mut AssignmentSet,
        Ghost(chain): Ghost<Seq<State>>,
        Ghost(f0): Ghost<Seq<Seq<Lit>>>,
        Ghost(n0): Ghost<nat>,
    ) -> (r: (Option<bool>, Option<Frame>, usize, Ghost<Seq<State>>))
        requires
            old(self).searching(old(hist)@, chain, next_lit, front_pt as int, f0, n0),
            old(set).wf(),
            old(set).capacity() == n0,
        ensures
            final(self).wf(),
            final(set).wf(),
            final(set).capacity() == n0,
            final(self).iter_num == old(self).iter_num,
            final(self).touched,
            !final(self).stale,
            final(self).state().lits == f0,
            final(self).state().value.len() == n0,
            match r.0 {
                None => final(self).searching(final(hist)@, r.3@, r.1, r.2 as int, f0, n0) && step(
                    Config {
                        s: old(self).state(),
                        set: picks_of(*old(set)),
                        hist: old(hist)@,
                        next: next_lit,
                        front: front_pt as int,
                    },
                ) == Outcome::Next(
                    Config {
                        s: final(self).state(),
                        set: picks_of(*final(set)),
                        hist: final(hist)@,
                        next: r.1,
                        front: r.2 as int,
                    },
                ) && 0 <= measure(
                    final(hist)@,
                    count_eq(final(self).state().propagated, false) as int,
                    r.1 is Some,
                ) < measure(
                    old(hist)@,
                    count_eq(old(self).state().propagated, false) as int,
                    next_lit is Some,
                ),
                Some(found) => found == final(self).status && final(self).state().base_inv() && (
                found ==> final(self).state().all_nonempty() && final(self).state().core_inv()
                    && final(self).state().settled() && final(self).state().unsat == 0) && (!found
                    ==> !satisfiable(f0)) && step(
                    Config {
                        s: old(self).state(),
                        set: picks_of(*old(set)),
                        hist: old(hist)@,
                        next: next_lit,
                        front: front_pt as int,
                    },
                ) == Outcome::Done(found, final(self).state()),
            },
    {
        let ghost t = self.state();
        let ghost hist0 = hist@;
        let ghost set0 = picks_of(*set);
        let ghost pending = next_lit is Some;
        let ghost u0 = count_eq(t.propagated, false) as int;
        let ghost here = Config {
            s: t,
            set: set0,
            hist: hist0,
            next: next_lit,
            front: front_pt as int,
        };
        let mut next_lit = next_lit;
        let mut front_pt = front_pt;
        if next_lit.is_none() {
            let choice = self.choose_next(front_pt, set);
            front_pt = choice.2;
            next_lit = Some((choice.0, choice.1));
        }
        let ghost set1 = picks_of(*set);
        let frame = next_lit.unwrap();
        let lit = frame.0;
        let var = lit.var_num();
        let value;
        proof {
            lemma_set_value(t, var as int, lit.polarity());
            lemma_count_pos(t.propagated, false, var as int);
            lemma_pow4_pos(u0 - 1);
            lemma_weight_push(hist0, frame, u0 - 1);
            lemma_weight_nonneg(hist0, u0);
            assert(lit == crate::state::lit_of(var as int, lit.positive));
        }
        if self.model.var[var] == VarValue::VUndef {
            value = lit.get_value();
            self.model.var[var] = value;
            hist.push(frame);
        } else {
            // A variable with a value is propagated here, and the chosen one
            // is not: this branch is never taken.
            value = self.model.var[var];
            next_lit = None;
        }
        let ghost pre = with_value(t, var as int, lit.polarity());
        proof {
            assert(self.state() == pre);
        }
        let conflict = self.propagate(var, value, true, set, Ghost(pre), Ghost(true));
        let ghost b = self.state();
        let ghost set2 = picks_of(*set);
        let ghost chain1 = chain.push(b);
        proof {
            assert(b.assigned() =~= t.assigned().update(var as int, lit.polarity()));
            assert(frame_ok(frame, t, b));
            assert forall|j: int| 0 <= j < hist@.len() implies frame_ok(
                #[trigger] hist@[j],
                chain1[j],
                chain1[j + 1],
            ) by {
                if j < hist0.len() {
                    assert(frame_ok(hist0[j], chain[j], chain[j + 1]));
                }
            }
            crate::count::lemma_count_update(t.propagated, var as int, true, false);
            assert(pow4(u0) == 4 * pow4(u0 - 1));
            assert(hist@ == hist0.push(frame));
            assert((value == VarValue::VTrue) == lit.positive);
        }
        if conflict {
            let back = self.unwind(hist, front_pt, set, Ghost(chain1));
            match back.0 {
                Some(f) => {
                    proof {
                        let u1 = count_eq(self.state().propagated, false) as int;
                        lemma_weight_nonneg(hist@, u1);
                        lemma_pow4_pos(u1);
                    }
                    (None, Some(f), back.1, back.2)
                },
                None => {
                    proof {
                        crate::fresh::lemma_status_frame(self.state(), false);
                    }
                    self.status = false;
                    (Some(false), None, back.1, back.2)
                },
            }
        } else {
            if self.len == 0 {
                (Some(true), None, front_pt, Ghost(chain1))
            } else {
                proof {
                    let u1 = count_eq(self.state().propagated, false) as int;
                    lemma_weight_nonneg(hist@, u1);
                    lemma_pow4_pos(u1);
                }
                (None, None, front_pt, Ghost(chain1))
            }
        }
    }

    /// Chooses the next decision. The variable is one from `set` that is not
    /// propagated, if `set` has a member at its call, and else the first
    /// variable from `front_pt` on that is not propagated. A variable that
    /// does not occur positively, or of which false is expected, is decided
    /// false without an alternative; else one that does not occur negatively,
    /// or of which true is expected, is decided true without an alternative;
    /// any other is decided true, with false as the alternative. Returns the
    /// decision, the alternative and the new `front_pt`.
    fn choose_next(&self, front_pt: usize, set: &mut AssignmentSet) -> (r: (Lit, Option<Lit>, usize))
        requires
            self.wf(),
            old(set).wf(),
            old(set).capacity() == self.state().value.len(),
            self.state().core_inv(),
            self.state().unsat > 0,
            forall|v: int| 0 <= v < front_pt ==> #[trigger] self.state().propagated[v],
        ensures
            final(set).wf(),
            final(set).capacity() == old(set).capacity(),
            0 <= r.0.var_index() < self.state().value.len(),
            !self.state().propagated[r.0.var_index()],
            front_pt <= r.2 < self.state().value.len(),
            forall|v: int| 0 <= v < r.2 ==> #[trigger] self.state().propagated[v],
            r.1 is None ==> (sat_under(self.state().lits, self.state().assigned()) ==> sat_under(
                self.state().lits,
                self.state().assigned().update(r.0.var_index(), r.0.polarity()),
            )),
            r.1 is Some ==> r.1 == Some(r.0.negated()),
            r.2 == first_free(self.state().propagated, front_pt as int),
            (r.0, r.1) == decision(
                self.state(),
                chosen_var(self.state(), picks_of(*old(set)), front_pt as int),
            ),
            picks_of(*final(set)) == picks_of(*old(set)).taken(),
    {
        let ghost s = self.state();
        let ghost u = crate::trail::lemma_free_var(s);
        let ghost front0 = front_pt as int;
        let mut front_pt = front_pt;
        proof {
            if front_pt > u {
                assert(s.propagated[u]);
            }
        }
        while self.model.propagated[front_pt]
            invariant
                self.wf(),
                s == self.state(),
                0 <= front_pt <= u < s.value.len(),
                !s.propagated[u],
                forall|v: int| 0 <= v < front_pt ==> #[trigger] s.propagated[v],
                first_free(s.propagated, front_pt as int) == first_free(s.propagated, front0),
            decreases s.value.len() - front_pt,
        {
            front_pt += 1;
        }
        let mut next_var = front_pt;
        match set.pick() {
            Some(v) => {
                if v < self.num_var && !self.model.propagated[v] {
                    next_var = v;
                }
            },
            None => {},
        }
        proof {
            assert(s.var_map_ok(next_var as int));
            assert(picks_of(*set).members =~= picks_of(*old(set)).taken().members);
            assert(next_var == chosen_var(s, picks_of(*old(set)), front0));
        }
        if self.model.map.get_clauses_of(next_var, true).len() == 0
            || self.model.expected[next_var].0 == VarValue::VFalse {
            let lit = Lit::create(next_var, false);
            proof {
                if s.pos[next_var as int].len() == 0 {
                    crate::trail::lemma_pure(s, next_var as int, false);
                } else {
                    crate::trail::lemma_expected_forced(s, next_var as int);
                }
            }
            (lit, None, front_pt)
        } else if self.model.map.get_clauses_of(next_var, false).len() == 0
            || self.model.expected[next_var].0 == VarValue::VTrue {
            let lit = Lit::create(next_var, true);
            proof {
                if s.neg[next_var as int].len() == 0 {
                    crate::trail::lemma_pure(s, next_var as int, true);
                } else {
                    crate::trail::lemma_expected_forced(s, next_var as int);
                }
            }
            (lit, None, front_pt)
        } else {
            let lit = Lit::create(next_var, true);
            (lit, Some(core::ops::Not::not(lit)), front_pt)
        }
    }

    /// Takes decisions back after a conflict, the last first, until one with
    /// an alternative has been taken back: that alternative is returned, to be
    /// decided next without an alternative of its own. Where no decision is
    /// left, nothing is returned: the formula is unsatisfiable. `front` is
    /// lowered to the least variable taken back, and returned.
    fn unwind(
        &mut self,
        hist: &mut Vec<Frame>,
        front: usize,
        set: &mut AssignmentSet,
        Ghost(chain): Ghost<Seq<State>>,
    ) -> (r: (Option<Frame>, usize, Ghost<Seq<State>>))
        requires
            old(self).wf(),
            old(set).wf(),
            chain_ok(old(hist)@, chain),
            chain.last() == old(self).state(),
            !sat_under(old(self).state().lits, old(self).state().assigned()),
            front <= old(self).state().value.len(),
            forall|v: int| 0 <= v < front ==> #[trigger] old(self).state().propagated[v],
        ensures
            final(self).wf(),
            final(set).wf(),
            final(set).capacity() == old(set).capacity(),
            final(self).iter_num == old(self).iter_num,
            final(self).touched == old(self).touched,
            final(self).stale == old(self).stale,
            final(self).state().lits == old(self).state().lits,
            final(self).state().value.len() == old(self).state().value.len(),
            final(self).state().status == old(self).state().status,
            chain_ok(final(hist)@, r.2@),
            r.2@.last() == final(self).state(),
            r.2@[0] == chain[0],
            r.1 <= final(self).state().value.len(),
            forall|v: int| 0 <= v < r.1 ==> #[trigger] final(self).state().propagated[v],
            !sat_under(final(self).state().lits, chain.last().assigned()),
            (Back {
                next: r.0,
                s: final(self).state(),
                set: picks_of(*final(set)),
                hist: final(hist)@,
                front: r.1 as int,
            }) == unwound(
                old(self).state(),
                picks_of(*old(set)),
                old(hist)@,
                front as int,
            ),
            match r.0 {
                Some(f) => f.1 is None && 0 <= f.0.var_index() < final(self).state().value.len()
                    && !final(self).state().propagated[f.0.var_index()] && final(self).state().value[f.0.var_index()] == VarValue::VUndef && final(self).state().unsat > 0 && final(self).state().core_inv()
                    && final(self).state().settled() && (sat_under(
                    final(self).state().lits,
                    final(self).state().assigned(),
                ) ==> sat_under(
                    final(self).state().lits,
                    final(self).state().assigned().update(f.0.var_index(), f.0.polarity()),
                )) && measure(
                    final(hist)@,
                    count_eq(final(self).state().propagated, false) as int,
                    true,
                ) < weight(old(hist)@, count_eq(old(self).state().propagated, false) as int),
                None => final(hist)@.len() == 0 && !sat_under(
                    final(self).state().lits,
                    final(self).state().assigned(),
                ),
            },
    {
        let ghost f0 = self.state().lits;
        let ghost w0 = weight(hist@, count_eq(self.state().propagated, false) as int);
        let ghost mut cur = chain;
        let mut front_pt = front;
        loop
            invariant
                self.wf(),
                set.wf(),
                set.capacity() == old(set).capacity(),
                self.iter_num == old(self).iter_num,
                self.touched == old(self).touched,
                self.stale == old(self).stale,
                self.state().lits == f0,
                f0 == old(self).state().lits,
                self.state().value.len() == old(self).state().value.len(),
                self.state().status == old(self).state().status,
                chain_ok(hist@, cur),
                cur.last() == self.state(),
                cur[0] == chain[0],
                chain.len() >= 1,
                !sat_under(f0, self.state().assigned()),
                !sat_under(f0, chain.last().assigned()),
                front_pt <= self.state().value.len(),
                forall|v: int| 0 <= v < front_pt ==> #[trigger] self.state().propagated[v],
                weight(hist@, count_eq(self.state().propagated, false) as int) <= w0,
                w0 == weight(old(hist)@, count_eq(old(self).state().propagated, false) as int),
                unwound(self.state(), picks_of(*set), hist@, front_pt as int) == unwound(
                    old(self).state(),
                    picks_of(*old(set)),
                    old(hist)@,
                    front as int,
                ),
            decreases hist@.len(),
        {
            let ghost hist0 = hist@;
            let ghost b = self.state();
            let ghost set_b = picks_of(*set);
            let ghost front_b = front_pt as int;
            match hist.pop() {
                None => {
                    proof {
                        assert(unwound(b, set_b, hist0, front_b) == (Back {
                            next: None,
                            s: b,
                            set: set_b,
                            hist: hist0,
                            front: front_b,
                        }));
                    }
                    return (None, front_pt, Ghost(cur));
                },
                Some(frame) => {
                    let lit = frame.0;
                    let next = frame.1;
                    let var = lit.var_num();
                    let val = lit.get_value();
                    let ghost k = hist@.len() as int;
                    let ghost a = cur[k];
                    let ghost pre = with_value(a, var as int, lit.polarity());
                    proof {
                        assert(hist0[k] == frame);
                        assert(frame_ok(hist0[k], cur[k], cur[k + 1]));
                        lemma_frame_step(frame, a, b);
                        assert(lit == crate::state::lit_of(var as int, val == VarValue::VTrue));
                    }
                    if var < front_pt {
                        front_pt = var;
                    }
                    self.propagate(var, val, false, set, Ghost(pre), Ghost(true));
                    self.model.var[var] = VarValue::VUndef;
                    proof {
                        assert(hist@ == hist0.drop_last());
                        assert(hist0.last() == frame);
                        assert((val == VarValue::VTrue) == lit.positive);
                        assert(self.state() == with_value(
                            carried(b, var as int, lit.positive, false),
                            var as int,
                            VarValue::VUndef,
                        ));
                        assert(self.state() == with_value(pre, var as int, VarValue::VUndef));
                        assert(self.state() == a);
                        assert forall|v: int| 0 <= v < front_pt implies #[trigger] a.propagated[v] by {
                            assert(b.propagated[v]);
                        }
                        cur = cur.take(k + 1);
                        assert(hist@ == hist0.drop_last());
                        assert forall|j: int| 0 <= j < hist@.len() implies frame_ok(
                            #[trigger] hist@[j],
                            cur[j],
                            cur[j + 1],
                        ) by {
                            assert(frame_ok(hist0[j], cur[j], cur[j + 1]));
                        }
                        lemma_pow4_pos(count_eq(a.propagated, false) as int);
                        assert(weight(hist0, count_eq(b.propagated, false) as int) == weight(
                            hist@,
                            count_eq(a.propagated, false) as int,
                        ) + if frame.1 is Some {
                            2 * pow4(count_eq(a.propagated, false) as int)
                        } else {
                            0int
                        });
                    }
                    match next {
                        Some(alt) => {
                            proof {
                                crate::trail::lemma_flip_forced(f0, a.assigned(), var as int, lit);
                                assert(unwound(b, set_b, hist0, front_b) == (Back {
                                    next: Some((alt, None::<Lit>)),
                                    s: self.state(),
                                    set: picks_of(*set),
                                    hist: hist@,
                                    front: front_pt as int,
                                }));
                            }
                            return (Some((alt, None)), front_pt, Ghost(cur));
                        },
                        None => {
                            proof {
                                assert(unwound(b, set_b, hist0, front_b) == unwound(
                                    self.state(),
                                    picks_of(*set),
                                    hist@,
                                    front_pt as int,
                                ));
                            }
                        },
                    }
                },
            }
        }
    }

    /// Gives each variable of which a clause without a true literal and with
    /// one unmarked literal asks a value that value, and tells whether there
    /// was such a clause.
    fn perform_assignments(&mut self, Ghost(strict): Ghost<bool>) -> (result: bool)
        requires
            old(self).wf(),
            old(self).state().settled(),
            strict ==> old(self).state().core_inv() && (old(self).state().grounded() || old(self).state().unsat == 0),
            !strict ==> slack_inv(old(self).state()),
        ensures
            final(self).wf(),
            strict ==> final(self).state().core_inv(),
            !strict ==> slack_inv(final(self).state()),
            old(self).state().grounded() && strict ==> final(self).state().grounded(),
            same_frame(
                State { value: old(self).state().value, ..final(self).state() },
                old(self).state(),
            ),
            final(self).state().propagated == old(self).state().propagated,
            final(self).state().unsat == old(self).state().unsat,
            final(self).iter_num == old(self).iter_num,
            final(self).touched == old(self).touched,
            final(self).stale == old(self).stale,
            final(self).state().value.len() == old(self).state().value.len(),
            forall|v: int|
                0 <= v < old(self).state().value.len() && old(self).state().propagated[v]
                    ==> #[trigger] final(self).state().value[v] == old(self).state().value[v],
            result ==> !final(self).state().settled(),
            result && strict ==> old(self).state().grounded(),
            !result ==> final(self).state() == old(self).state(),
            !result && strict ==> no_unit(old(self).state()),
            strict ==> keeps_below(
                old(self).state().lits,
                old(self).state().value,
                final(self).state().value,
            ),
            final(self).state() == assign_run(old(self).state(), old(self).state().lits.len()),
            result == assign_found(old(self).state(), old(self).state().lits.len()),
    {
        let ghost s0 = self.state();
        let mut result = false;
        let m = self.cnf.len();
        let mut i: usize = 0;
        proof {
            if strict && !s0.grounded() {
                crate::count::lemma_count_zero(s0.zero_flags(), true);
                assert forall|c: int| 0 <= c < m implies #[trigger] s0.sat[c] != 0 by {
                    assert(!s0.zero_flags()[c]);
                }
            }
        }
        while i < m
            invariant
                0 <= i <= m,
                m == s0.lits.len(),
                self.wf(),
                strict ==> self.state().core_inv(),
                !strict ==> slack_inv(self.state()),
                strict && s0.grounded() ==> self.state().grounded(),
                strict && !s0.grounded() ==> forall|c: int|
                    0 <= c < m ==> #[trigger] s0.sat[c] != 0,
                self.state() == (State { value: self.state().value, ..s0 }),
                self.state().value.len() == s0.value.len(),
                self.iter_num == old(self).iter_num,
                self.touched == old(self).touched,
                self.stale == old(self).stale,
                forall|v: int|
                    0 <= v < s0.value.len() && s0.propagated[v] ==> #[trigger] self.state().value[v]
                        == s0.value[v],
                result ==> !self.state().settled(),
                result && strict ==> s0.grounded(),
                strict ==> keeps_below(s0.lits, s0.value, self.state().value),
                self.state() == assign_run(s0, i as nat),
                result == assign_found(s0, i as nat),
                !result ==> self.state() == s0,
                !result && strict ==> forall|c: int|
                    0 <= c < i ==> !(#[trigger] s0.sat[c] == 0 && s0.live(c) == 1),
            decreases m - i,
        {
            let ghost s = self.state();
            if self.cnf.sat[i] == 0 && self.cnf.clauses[i].len() == 1 {
                proof {
                    crate::count::lemma_first_eq(s.marks[i as int], false);
                    assert(s.marks[i as int].len() == s.lits[i as int].len());
                    assert(s.first(i as int).var.num < s.value.len());
                    if strict {
                        assert(s0.zero_flags()[i as int]);
                        lemma_unit_var_free(s, i as int);
                        lemma_unit_value_grounded(s, i as int);
                        let l = s.first(i as int);
                        assert forall|w: Seq<VarValue>|
                            within(s0.value, w) && #[trigger] closed(s0.lits, w) implies within(
                            with_value(s, l.var_index(), l.polarity()).value,
                            w,
                        ) by {
                            assert(within(s.value, w));
                            crate::fresh::lemma_within_assigned(s, w);
                            crate::formula::lemma_unit_forces_up(s, i as int, w);
                        }
                    }
                }
                let lit = self.cnf.clauses[i].get_first().unwrap();
                let var = lit.var_num();
                if !self.model.propagated[var] {
                    result = true;
                    self.model.var[var] = lit.get_value();
                    proof {
                        let v = lit.var_index();
                        assert(self.state() == with_value(s, v, lit.polarity()));
                        if strict {
                            lemma_set_value(s, v, lit.polarity());
                        } else {
                            lemma_slack_set_value(s, v, lit.polarity());
                        }
                        assert(self.state().value[v] != VarValue::VUndef);
                    }
                }
            }
            i += 1;
        }
        result
    }
}

/// What `solve` makes of a solver: the result is the new status. Where the
/// status was honest, and so wherever it was true, the result tells whether
/// the formula is satisfiable. Where the result is true, the values satisfy
/// the formula, every variable with a value is propagated and no clause is
/// left without a true literal. Formula and variables stay; a solver whose
/// status was false stays as it was. A stale solver is searched from the
/// state before any search. The last state is the one that the course of
/// the search leads to, and the recorded number of iterations is the number
/// of its steps, as far as it can be counted.
pub open spec fn solved(pre: Solver, post: Solver, r: bool) -> bool {
    &&& r == post.status()
    &&& pre.honest() ==> r == satisfiable(pre.formula()) && post.honest()
    &&& r ==> model_satisfies(post.formula(), post.model())
    &&& r ==> post.state().settled() && post.state().unsat == 0
    &&& post.formula() == pre.formula()
    &&& post.num_vars() == pre.num_vars()
    &&& post.log_frequency() == pre.log_frequency()
    &&& !pre.status() ==> post.state() == pre.state() && post.fresh() == pre.fresh()
        && post.stale() == pre.stale()
    &&& pre.status() ==> !post.fresh() && !post.stale()
    &&& search_ends(pre.start(), post.state(), r)
    &&& !pre.status() ==> post.iterations() == pre.iterations()
    &&& pre.status() ==> exists|n: nat|
        #[trigger] search_takes(pre.start(), n) && post.iterations() == (if n <= usize::MAX {
            n as usize
        } else {
            usize::MAX
        })
}

/// What `reset` makes of a solver: the state before any search, with the
/// values that the clauses of one literal give. Formula, variables,
/// occurrence lists, counts of occurrences, the number of indexed clauses and
/// the status stay, as `blanked` says. The solver is fresh, and not stale.
pub open spec fn was_reset(pre: Solver, post: Solver) -> bool {
    &&& post.fresh()
    &&& !post.stale()
    &&& post.state() == blanked(pre.state())
    &&& post.log_frequency() == pre.log_frequency()
    &&& post.iterations() == pre.iterations()
    &&& pre.fresh() && pre.status() ==> post.state() == pre.state()
}

/// A simplification of state `s` ends in state `t` with result `r`.
pub open spec fn simplifies_to(s: State, t: State, r: bool) -> bool {
    exists|fuel: nat| simplified(s, fuel) == Some((t, r))
}

/// The values `v` are the least that are closed under unit propagation and
/// keep the values `v0`.
pub open spec fn least_closed(f: Seq<Seq<Lit>>, v0: Seq<VarValue>, v: Seq<VarValue>) -> bool {
    &&& within(v0, v)
    &&& closed(f, v)
    &&& keeps_below(f, v0, v)
}

/// Whatever values are closed under unit propagation and keep `v0`, keep `v`.
pub open spec fn keeps_below(f: Seq<Seq<Lit>>, v0: Seq<VarValue>, v: Seq<VarValue>) -> bool {
    forall|w: Seq<VarValue>| within(v0, w) && #[trigger] closed(f, w) ==> within(v, w)
}

/// No clause without a true literal has exactly one unmarked literal.
pub open spec fn no_unit(s: State) -> bool {
    forall|c: int| 0 <= c < s.lits.len() ==> !(#[trigger] s.sat[c] == 0 && s.live(c) == 1)
}

} // verus!
