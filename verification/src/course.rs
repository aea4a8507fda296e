//! The course of a propagation as a function of the state that it starts
//! from: the states that the passes run through, whether a conflict is met,
//! and the variables that enter and leave the set of asked variables.

use crate::assignset::{top, AssignmentSet};
use crate::lit::VarValue;
use crate::cursor::{cur_c, cur_p};
use crate::lit::Lit;
use crate::passes::{
    forward_of, fwd_clash, fwd_inv, fwd_step, lemma_fwd_end, lemma_fwd_start, lemma_fwd_step,
    lemma_sat_pass_end, lemma_sat_pass_start, lemma_sat_pass_step, lemma_sat_unpass_end,
    lemma_sat_unpass_start, lemma_undo_end, lemma_undo_start, lemma_undo_step, mark_step, pass_pre,
    sat_pass_inv, sat_step, undo_inv, undo_step,
};
use crate::fresh::with_value;
use crate::state::{lit_of, Occ, State};
use crate::trail::Frame;
use vstd::prelude::*;

verus! {

/// A set of variables with the order of its entries, as an `AssignmentSet`
/// holds it.
pub struct Picks {
    pub members: Set<usize>,
    pub order: Seq<usize>,
    pub cap: nat,
}

impl Picks {
    /// The set after `v` has entered, where `v` is below the capacity; a
    /// variable without an entry gets one behind the others.
    pub open spec fn with(self, v: usize) -> Picks {
        if v < self.cap {
            Picks {
                members: self.members.insert(v),
                order: if self.order.contains(v) {
                    self.order
                } else {
                    self.order.push(v)
                },
                cap: self.cap,
            }
        } else {
            self
        }
    }

    /// The set after `v` has left.
    pub open spec fn without(self, v: usize) -> Picks {
        Picks { members: self.members.remove(v), order: self.order, cap: self.cap }
    }

    /// The member that is taken next: the one with the last entry.
    pub open spec fn next(self) -> Option<usize> {
        if top(self.order, self.members) >= 0 {
            Some(self.order[top(self.order, self.members)])
        } else {
            None
        }
    }

    /// The set after the next member has been taken.
    pub open spec fn taken(self) -> Picks {
        if top(self.order, self.members) >= 0 {
            Picks {
                members: self.members.remove(self.order[top(self.order, self.members)]),
                order: self.order.take(top(self.order, self.members)),
                cap: self.cap,
            }
        } else {
            Picks { members: self.members, order: Seq::empty(), cap: self.cap }
        }
    }
}

/// What a set holds.
pub open spec fn picks_of(set: AssignmentSet) -> Picks {
    Picks { members: set@, order: set.order(), cap: set.capacity() }
}

/// The state after the first `i` steps of a pass over the true side.
pub open spec fn sat_run(s: State, list: Seq<Occ>, i: nat, fwd: bool) -> State
    decreases i,
{
    if i == 0 {
        s
    } else {
        sat_step(sat_run(s, list, (i - 1) as nat, fwd), list[i - 1].0 as int, fwd)
    }
}

/// The state after the first `i` steps of a forward pass over the false
/// side.
pub open spec fn fwd_run(s: State, list: Seq<Occ>, i: nat) -> State
    decreases i,
{
    if i == 0 {
        s
    } else {
        fwd_step(fwd_run(s, list, (i - 1) as nat), list[i - 1].0 as int, list[i - 1].1 as int)
    }
}

/// Whether one of the first `i` steps of a forward pass over the false side
/// meets a conflict.
pub open spec fn fwd_hit(s: State, list: Seq<Occ>, i: nat) -> bool
    decreases i,
{
    if i == 0 {
        false
    } else {
        fwd_hit(s, list, (i - 1) as nat) || fwd_clash(
            fwd_run(s, list, (i - 1) as nat),
            list[i - 1].0 as int,
            list[i - 1].1 as int,
        )
    }
}

/// The set after the first `i` steps of a forward pass over the false side:
/// the variable of the literal that a step leaves alone in its clause enters.
pub open spec fn fwd_picks(s: State, list: Seq<Occ>, i: nat, set: Picks) -> Picks
    decreases i,
{
    if i == 0 {
        set
    } else {
        let before = fwd_picks(s, list, (i - 1) as nat, set);
        let t = fwd_run(s, list, (i - 1) as nat);
        let c = list[i - 1].0 as int;
        let marked = mark_step(t, c, list[i - 1].1 as int, true);
        if t.sat[c] == 0 && marked.live(c) == 1 {
            before.with(marked.first(c).var.num)
        } else {
            before
        }
    }
}

/// The state after the first `i` steps of a backward pass over the false
/// side.
pub open spec fn undo_run(s: State, list: Seq<Occ>, i: nat) -> State
    decreases i,
{
    if i == 0 {
        s
    } else {
        undo_step(undo_run(s, list, (i - 1) as nat), list[i - 1].0 as int, list[i - 1].1 as int)
    }
}

/// The set after the first `i` steps of a backward pass over the false
/// side: a variable of which the last asking clause withdraws leaves.
pub open spec fn undo_picks(s: State, list: Seq<Occ>, i: nat, set: Picks) -> Picks
    decreases i,
{
    if i == 0 {
        set
    } else {
        let before = undo_picks(s, list, (i - 1) as nat, set);
        let t = undo_run(s, list, (i - 1) as nat);
        let c = list[i - 1].0 as int;
        if t.sat[c] == 0 && t.live(c) == 1 && t.expected[t.first(c).var_index()].1 == 1 {
            before.without(t.first(c).var.num)
        } else {
            before
        }
    }
}

/// The positions at which variable `var` occurs with polarity `pol`.
pub open spec fn side(s: State, var: int, pol: bool) -> Seq<Occ> {
    if pol {
        s.pos[var]
    } else {
        s.neg[var]
    }
}

/// The state in which the propagation starts its passes: the flag of the
/// variable is set as the direction says.
pub open spec fn flagged(s: State, var: int, fwd: bool) -> State {
    State { propagated: s.propagated.update(var, fwd), ..s }
}

/// The state after the pass over the true side.
pub open spec fn counted(s: State, var: int, pol: bool, fwd: bool) -> State {
    sat_run(flagged(s, var, fwd), side(s, var, pol), side(s, var, pol).len(), fwd)
}

/// The state after the value `pol` of variable `var` has been carried
/// through the clauses (`fwd`) or taken back out of them.
pub open spec fn carried(s: State, var: int, pol: bool, fwd: bool) -> State {
    if fwd {
        fwd_run(counted(s, var, pol, fwd), side(s, var, !pol), side(s, var, !pol).len())
    } else {
        undo_run(counted(s, var, pol, fwd), side(s, var, !pol), side(s, var, !pol).len())
    }
}

/// Whether carrying the value `pol` of variable `var` through the clauses
/// meets a conflict.
pub open spec fn carried_hit(s: State, var: int, pol: bool) -> bool {
    fwd_hit(counted(s, var, pol, true), side(s, var, !pol), side(s, var, !pol).len())
}

/// The set after the value `pol` of variable `var` has been carried
/// through the clauses (`fwd`) or taken back out of them.
pub open spec fn carried_picks(s: State, var: int, pol: bool, fwd: bool, set: Picks) -> Picks {
    if fwd {
        fwd_picks(counted(s, var, pol, fwd), side(s, var, !pol), side(s, var, !pol).len(), set)
    } else {
        undo_picks(counted(s, var, pol, fwd), side(s, var, !pol), side(s, var, !pol).len(), set)
    }
}

/// The value of a polarity.
pub open spec fn value_of(pol: bool) -> VarValue {
    if pol {
        VarValue::VTrue
    } else {
        VarValue::VFalse
    }
}

/// The state after a round of a simplification has visited the first `i`
/// variables, and whether it met a conflict: each variable that has a value
/// and is not propagated has its value carried through the clauses, up to
/// the first conflict.
pub open spec fn scan(s: State, i: nat) -> (State, bool)
    decreases i,
{
    if i == 0 {
        (s, false)
    } else {
        let before = scan(s, (i - 1) as nat);
        let t = before.0;
        let v = i - 1;
        if before.1 {
            before
        } else if !t.propagated[v] && t.value[v] != VarValue::VUndef {
            (
                carried(t, v, t.value[v] == VarValue::VTrue, true),
                carried_hit(t, v, t.value[v] == VarValue::VTrue),
            )
        } else {
            (t, false)
        }
    }
}

/// Whether one of the first `i` flags is not set.
pub open spec fn free_seen(flags: Seq<bool>, i: nat) -> bool
    decreases i,
{
    if i == 0 {
        false
    } else {
        free_seen(flags, (i - 1) as nat) || !flags[i - 1]
    }
}

/// The state after the first `i` clauses have given, each that has no true
/// literal and one unmarked literal, that literal's variable its value,
/// unless the variable is propagated.
pub open spec fn assign_run(s: State, i: nat) -> State
    decreases i,
{
    if i == 0 {
        s
    } else {
        let t = assign_run(s, (i - 1) as nat);
        let c = i - 1;
        if t.sat[c] == 0 && t.live(c) == 1 && !t.propagated[t.first(c).var_index()] {
            with_value(t, t.first(c).var_index(), t.first(c).polarity())
        } else {
            t
        }
    }
}

/// Whether one of the first `i` clauses has no true literal and one
/// unmarked literal, of a variable that is not propagated.
pub open spec fn assign_found(s: State, i: nat) -> bool
    decreases i,
{
    if i == 0 {
        false
    } else {
        let t = assign_run(s, (i - 1) as nat);
        assign_found(s, (i - 1) as nat) || (t.sat[i - 1] == 0 && t.live(i - 1) == 1
            && !t.propagated[t.first(i - 1).var_index()])
    }
}

/// What a simplification makes of a state within `fuel` rounds, and its
/// result; nothing where more rounds are needed. A round carries the values
/// that are there through the clauses; a conflict ends the simplification
/// with the status false. Else the clauses with one literal left give
/// values, and another round follows if there was such a clause.
pub open spec fn simplified(s: State, fuel: nat) -> Option<(State, bool)>
    decreases fuel,
{
    if fuel == 0 {
        None
    } else {
        let after = scan(s, s.value.len());
        if after.1 {
            Some((State { status: false, ..after.0 }, false))
        } else if !free_seen(s.propagated, s.value.len()) {
            Some((after.0, true))
        } else if !assign_found(after.0, s.lits.len()) {
            Some((after.0, true))
        } else {
            simplified(assign_run(after.0, s.lits.len()), (fuel - 1) as nat)
        }
    }
}

/// Once a round has met a conflict, it goes no further.
pub proof fn lemma_scan_stops(s: State, i: nat, n: nat)
    requires
        i <= n,
        scan(s, i).1,
    ensures
        scan(s, n) == scan(s, i),
    decreases n,
{
    if i < n {
        lemma_scan_stops(s, i, (n - 1) as nat);
    }
}

/// More rounds than needed change nothing.
pub proof fn lemma_simplified_more(s: State, fuel: nat, more: nat)
    requires
        simplified(s, fuel) is Some,
        fuel <= more,
    ensures
        simplified(s, more) == simplified(s, fuel),
    decreases fuel,
{
    if fuel > 0 {
        let after = scan(s, s.value.len());
        if !after.1 && free_seen(s.propagated, s.value.len()) && assign_found(
            after.0,
            s.lits.len(),
        ) {
            lemma_simplified_more(
                assign_run(after.0, s.lits.len()),
                (fuel - 1) as nat,
                (more - 1) as nat,
            );
        }
    }
}

/// Where a search stands between two steps: the state, the set of asked
/// variables, the decisions taken, the decision that is to be taken next
/// where it is known already, and the index below which every variable is
/// propagated.
pub struct Config {
    pub s: State,
    pub set: Picks,
    pub hist: Seq<Frame>,
    pub next: Option<Frame>,
    pub front: int,
}

/// Where a search stands after decisions have been taken back.
pub struct Back {
    pub next: Option<Frame>,
    pub s: State,
    pub set: Picks,
    pub hist: Seq<Frame>,
    pub front: int,
}

/// What a step of a search leads to: the end, with the answer and the last
/// state, or the place where the search stands next.
pub enum Outcome {
    Done(bool, State),
    Next(Config),
}

/// The first index from `front` on whose flag is not set; the number of
/// flags where there is none.
pub open spec fn first_free(flags: Seq<bool>, front: int) -> int
    decreases flags.len() - front,
{
    if front < 0 || front >= flags.len() || !flags[front] {
        front
    } else {
        first_free(flags, front + 1)
    }
}

/// The variable that is decided next: the member that the set hands out, if
/// it is not propagated, and else the first variable from `front` on that is
/// not propagated.
pub open spec fn chosen_var(s: State, set: Picks, front: int) -> int {
    match set.next() {
        Some(v) => if v < s.value.len() && !s.propagated[v as int] {
            v as int
        } else {
            first_free(s.propagated, front)
        },
        None => first_free(s.propagated, front),
    }
}

/// The decision for a variable: false without an alternative where it does
/// not occur positively or false is expected of it; else true without an
/// alternative where it does not occur negatively or true is expected of it;
/// else true, with false as the alternative.
pub open spec fn decision(s: State, var: int) -> Frame {
    if s.pos[var].len() == 0 || s.expected[var].0 == VarValue::VFalse {
        (lit_of(var, false), None)
    } else if s.neg[var].len() == 0 || s.expected[var].0 == VarValue::VTrue {
        (lit_of(var, true), None)
    } else {
        (lit_of(var, true), Some(lit_of(var, false)))
    }
}

/// Where a search stands after it has taken decisions back, the last first,
/// up to and with the first one that has an alternative.
pub open spec fn unwound(s: State, set: Picks, hist: Seq<Frame>, front: int) -> Back
    decreases hist.len(),
{
    if hist.len() == 0 {
        Back { next: None, s, set, hist, front }
    } else {
        let f = hist.last();
        let var = f.0.var_index();
        let front1 = if var < front {
            var
        } else {
            front
        };
        let s1 = with_value(carried(s, var, f.0.positive, false), var, VarValue::VUndef);
        let set1 = carried_picks(s, var, f.0.positive, false, set);
        match f.1 {
            Some(alt) => Back {
                next: Some((alt, None)),
                s: s1,
                set: set1,
                hist: hist.drop_last(),
                front: front1,
            },
            None => unwound(s1, set1, hist.drop_last(), front1),
        }
    }
}

/// One step of a search: a decision is chosen, unless one is to be taken
/// already, and its value carried through the clauses. After a conflict
/// decisions are taken back; where none with an alternative is left the
/// search ends with the answer no. Without a conflict the search ends with
/// the answer yes where no clause is left without a true literal.
pub open spec fn step(c: Config) -> Outcome {
    let choice = if c.next is None {
        decision(c.s, chosen_var(c.s, c.set, c.front))
    } else {
        c.next.unwrap()
    };
    let front1 = if c.next is None {
        first_free(c.s.propagated, c.front)
    } else {
        c.front
    };
    let set1 = if c.next is None {
        c.set.taken()
    } else {
        c.set
    };
    let var = choice.0.var_index();
    let pol = choice.0.positive;
    let pre = with_value(c.s, var, choice.0.polarity());
    let b = carried(pre, var, pol, true);
    let set2 = carried_picks(pre, var, pol, true, set1);
    let hist1 = c.hist.push(choice);
    if carried_hit(pre, var, pol) {
        let back = unwound(b, set2, hist1, front1);
        match back.next {
            Some(f) => Outcome::Next(
                Config { s: back.s, set: back.set, hist: back.hist, next: Some(f), front: back.front },
            ),
            None => Outcome::Done(false, State { status: false, ..back.s }),
        }
    } else if b.unsat == 0 {
        Outcome::Done(true, b)
    } else {
        Outcome::Next(Config { s: b, set: set2, hist: hist1, next: None, front: front1 })
    }
}

/// The answer and the last state of a search that ends within `fuel` steps;
/// nothing where it needs more.
pub open spec fn run(c: Config, fuel: nat) -> Option<(bool, State)>
    decreases fuel,
{
    if fuel == 0 {
        None
    } else {
        match step(c) {
            Outcome::Done(r, t) => Some((r, t)),
            Outcome::Next(c2) => run(c2, (fuel - 1) as nat),
        }
    }
}

/// Where a search starts after a simplification: no variable is asked, no
/// decision taken.
pub open spec fn start_of(t: State) -> Config {
    Config {
        s: t,
        set: Picks { members: Set::empty(), order: Seq::empty(), cap: t.value.len() },
        hist: Seq::empty(),
        next: None,
        front: 0,
    }
}

/// The answer and the last state of `solve` on state `s`, where the
/// simplification ends within `fuel` rounds and the search within `fuel`
/// steps.
pub open spec fn searched(s: State, fuel: nat) -> Option<(bool, State)> {
    if !s.status {
        Some((false, s))
    } else {
        match simplified(s, fuel) {
            None => None,
            Some(done) => if !done.1 {
                Some((false, done.0))
            } else if done.0.unsat == 0 {
                Some((true, done.0))
            } else {
                run(start_of(done.0), fuel)
            },
        }
    }
}

/// The number of steps of a search from `c` is `n`: it ends within `n`
/// steps and not within fewer.
pub open spec fn run_takes(c: Config, n: nat) -> bool {
    run(c, n) is Some && (n > 0 ==> run(c, (n - 1) as nat) is None)
}

/// The number of steps that `solve` takes on state `s` is `n`: none where
/// the simplification settles the answer, and else the number of steps of
/// the search that follows.
pub open spec fn search_takes(s: State, n: nat) -> bool {
    exists|fuel: nat|
        match #[trigger] simplified(s, fuel) {
            None => false,
            Some(done) => if !done.1 || done.0.unsat == 0 {
                n == 0
            } else {
                run_takes(start_of(done.0), n)
            },
        }
}

/// More steps than needed change nothing.
pub proof fn lemma_run_more(c: Config, fuel: nat, more: nat)
    requires
        run(c, fuel) is Some,
        fuel <= more,
    ensures
        run(c, more) == run(c, fuel),
    decreases fuel,
{
    if fuel > 0 {
        match step(c) {
            Outcome::Done(r, t) => {},
            Outcome::Next(c2) => {
                lemma_run_more(c2, (fuel - 1) as nat, (more - 1) as nat);
            },
        }
    }
}

/// More rounds and steps than needed change nothing.
pub proof fn lemma_searched_more(s: State, fuel: nat, more: nat)
    requires
        searched(s, fuel) is Some,
        fuel <= more,
    ensures
        searched(s, more) == searched(s, fuel),
{
    if s.status {
        lemma_simplified_more(s, fuel, more);
        let done = simplified(s, fuel).unwrap();
        if done.1 && done.0.unsat != 0 {
            lemma_run_more(start_of(done.0), fuel, more);
        }
    }
}

/// `solve` on state `s` ends in state `t` with the answer `r`.
pub open spec fn search_ends(s: State, t: State, r: bool) -> bool {
    exists|fuel: nat| searched(s, fuel) == Some((r, t))
}

/// A search is determined by the state that it starts from.
pub proof fn lemma_search_determined(s: State, t1: State, r1: bool, t2: State, r2: bool)
    requires
        search_ends(s, t1, r1),
        search_ends(s, t2, r2),
    ensures
        r1 == r2,
        t1 == t2,
{
    let f1 = choose|fuel: nat| searched(s, fuel) == Some((r1, t1));
    let f2 = choose|fuel: nat| searched(s, fuel) == Some((r2, t2));
    if f1 <= f2 {
        lemma_searched_more(s, f1, f2);
    } else {
        lemma_searched_more(s, f2, f1);
    }
}

/// The steps of a pass over the true side keep what holds of its counters,
/// and change nothing but counters.
pub proof fn lemma_sat_run(start: State, s0: State, l: Lit, list: Seq<Occ>, i: nat, fwd: bool)
    requires
        s0.shape(),
        s0.indexed == s0.lits.len(),
        s0.occ_list_ok(list, l),
        !s0.lit_true(l),
        i <= list.len(),
        sat_pass_inv(start, s0, l, cur_c(list, 0, s0.indexed as int), cur_p(list, 0), fwd),
    ensures
        sat_pass_inv(
            sat_run(start, list, i, fwd),
            s0,
            l,
            cur_c(list, i as int, s0.indexed as int),
            cur_p(list, i as int),
            fwd,
        ),
        sat_run(start, list, i, fwd).marks == start.marks,
        sat_run(start, list, i, fwd).expected == start.expected,
        sat_run(start, list, i, fwd).propagated == start.propagated,
    decreases i,
{
    if i > 0 {
        lemma_sat_run(start, s0, l, list, (i - 1) as nat, fwd);
        lemma_sat_pass_step(sat_run(start, list, (i - 1) as nat, fwd), s0, l, list, i - 1, fwd);
    }
}

/// The steps of a forward pass over the false side keep what holds during
/// the pass.
pub proof fn lemma_fwd_run(start: State, s0: State, sl: Lit, list: Seq<Occ>, i: nat)
    requires
        pass_pre(s0, sl),
        s0.occ_list_ok(list, sl.negated()),
        i <= list.len(),
        fwd_inv(start, s0, sl, cur_c(list, 0, s0.indexed as int), cur_p(list, 0), false),
    ensures
        fwd_inv(
            fwd_run(start, list, i),
            s0,
            sl,
            cur_c(list, i as int, s0.indexed as int),
            cur_p(list, i as int),
            fwd_hit(start, list, i),
        ),
    decreases i,
{
    if i > 0 {
        lemma_fwd_run(start, s0, sl, list, (i - 1) as nat);
        lemma_fwd_step(
            fwd_run(start, list, (i - 1) as nat),
            s0,
            sl,
            list,
            i - 1,
            fwd_hit(start, list, (i - 1) as nat),
        );
    }
}

/// The steps of a backward pass over the false side keep what holds during
/// the pass.
pub proof fn lemma_undo_run(start: State, s0: State, sl: Lit, list: Seq<Occ>, i: nat)
    requires
        pass_pre(s0, sl),
        s0.occ_list_ok(list, sl.negated()),
        i <= list.len(),
        undo_inv(start, s0, sl, cur_c(list, 0, s0.indexed as int), cur_p(list, 0)),
    ensures
        undo_inv(
            undo_run(start, list, i),
            s0,
            sl,
            cur_c(list, i as int, s0.indexed as int),
            cur_p(list, i as int),
        ),
    decreases i,
{
    if i > 0 {
        lemma_undo_run(start, s0, sl, list, (i - 1) as nat);
        lemma_undo_step(undo_run(start, list, (i - 1) as nat), s0, sl, list, i - 1);
    }
}

/// Carrying a value through the clauses leads to the forward image of the
/// state, in which the invariants of every state hold; without a conflict
/// those of a state between two steps of a search hold too.
pub proof fn lemma_carried_forward(s0: State, var: int, pol: bool)
    requires
        0 <= var < s0.value.len(),
        pass_pre(s0, lit_of(var, pol)),
    ensures
        forward_of(carried(s0, var, pol, true), s0, lit_of(var, pol)),
        carried(s0, var, pol, true).base_inv(),
        !carried_hit(s0, var, pol) ==> carried(s0, var, pol, true).core_inv(),
{
    let l = lit_of(var, pol);
    let tl = side(s0, var, pol);
    let fl = side(s0, var, !pol);
    assert(s0.var_map_ok(var));
    assert(l.negated() == lit_of(var, !pol));
    let s1 = flagged(s0, var, true);
    lemma_sat_pass_start(s0, l, tl);
    assert(s1.zero_flags() =~= s0.zero_flags());
    lemma_sat_run(s1, s0, l, tl, tl.len(), true);
    let s2 = counted(s0, var, pol, true);
    lemma_sat_pass_end(s2, s0, l, tl);
    lemma_fwd_start(s2, s0, l, fl);
    lemma_fwd_run(s2, s0, l, fl, fl.len());
    lemma_fwd_end(carried(s0, var, pol, true), s0, l, fl, carried_hit(s0, var, pol));
}

/// Taking a value back out of the clauses after it has been carried
/// through them restores the state: every counter, mark and expected value
/// is as before.
pub proof fn lemma_carried_back(s0: State, var: int, pol: bool)
    requires
        0 <= var < s0.value.len(),
        pass_pre(s0, lit_of(var, pol)),
    ensures
        carried(carried(s0, var, pol, true), var, pol, false) == s0,
{
    let l = lit_of(var, pol);
    let tl = side(s0, var, pol);
    let fl = side(s0, var, !pol);
    assert(s0.var_map_ok(var));
    assert(l.negated() == lit_of(var, !pol));
    lemma_carried_forward(s0, var, pol);
    let s1 = carried(s0, var, pol, true);
    assert(side(s1, var, pol) == tl);
    assert(side(s1, var, !pol) == fl);
    lemma_sat_unpass_start(s1, s0, l, tl);
    let s2 = flagged(s1, var, false);
    assert(s2.zero_flags() =~= s1.zero_flags());
    assert(s2.propagated =~= s0.propagated);
    lemma_sat_run(s2, s0, l, tl, tl.len(), false);
    let s3 = counted(s1, var, pol, false);
    lemma_sat_unpass_end(s3, s0, l, tl);
    lemma_undo_start(s3, s1, s0, l, fl);
    lemma_undo_run(s3, s0, l, fl, fl.len());
    lemma_undo_end(carried(s1, var, pol, false), s0, l, fl);
}

} // verus!
