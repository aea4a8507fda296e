//! What holds of a state while the value of one variable is carried through
//! the clauses, or taken back out of them.

use crate::count::{
    count_eq, first_eq, lemma_count_bound, lemma_count_one, lemma_count_pos, lemma_count_two,
    lemma_count_update, lemma_count_zero, lemma_first_eq, lemma_first_eq_is,
};
use crate::cursor::{cur_c, cur_p, lemma_cursor_end, lemma_cursor_start, lemma_cursor_step};
use crate::lit::{Lit, VarValue};
use crate::state::{before, Occ, State};
use vstd::prelude::*;

verus! {

/// `s` differs from `s0` at most in counters, marks, expected values and
/// propagation flags.
pub open spec fn same_frame(s: State, s0: State) -> bool {
    &&& s.lits == s0.lits
    &&& s.value == s0.value
    &&& s.pos == s0.pos
    &&& s.neg == s0.neg
    &&& s.cnt == s0.cnt
    &&& s.indexed == s0.indexed
    &&& s.status == s0.status
    &&& s.sat.len() == s0.sat.len()
    &&& s.marks.len() == s0.marks.len()
    &&& s.expected.len() == s0.expected.len()
    &&& s.propagated.len() == s0.propagated.len()
}

/// For each position of clause `c`: whether its literal counts as true while
/// literal `l` is being made true (`fwd`) or taken back, the cursor standing
/// at `(cc, cp)`. The literals that were true in `s0` count throughout.
pub open spec fn pass_flags(s0: State, c: int, l: Lit, cc: int, cp: int, fwd: bool) -> Seq<bool> {
    Seq::new(
        s0.lits[c].len(),
        |p: int| s0.lit_true(s0.lits[c][p]) || (s0.lits[c][p] == l && (before(c, p, cc, cp) == fwd)),
    )
}

/// The counters of `s` are those of a pass over the positions of `l` that
/// has reached `(cc, cp)`.
pub open spec fn sat_pass_inv(s: State, s0: State, l: Lit, cc: int, cp: int, fwd: bool) -> bool {
    &&& same_frame(s, s0)
    &&& forall|c: int|
        0 <= c < s.lits.len() ==> #[trigger] s.sat[c] == count_eq(
            pass_flags(s0, c, l, cc, cp, fwd),
            true,
        )
    &&& s.unsat_ok()
}

/// The state after one step of a pass over the true side: the counter of
/// clause `c` goes up or down by one, and `unsat` follows it.
pub open spec fn sat_step(s: State, c: int, fwd: bool) -> State {
    if fwd {
        State {
            sat: s.sat.update(c, (s.sat[c] + 1) as usize),
            unsat: if s.sat[c] == 0 {
                (s.unsat - 1) as usize
            } else {
                s.unsat
            },
            ..s
        }
    } else {
        State {
            sat: s.sat.update(c, (s.sat[c] - 1) as usize),
            unsat: if s.sat[c] == 1 {
                (s.unsat + 1) as usize
            } else {
                s.unsat
            },
            ..s
        }
    }
}

/// A forward pass starts from the counters of `s0`.
pub proof fn lemma_sat_pass_start(s0: State, l: Lit, list: Seq<Occ>)
    requires
        s0.shape(),
        s0.sat_ok(),
        s0.unsat_ok(),
        s0.indexed == s0.lits.len(),
        s0.occ_list_ok(list, l),
    ensures
        sat_pass_inv(s0, s0, l, cur_c(list, 0, s0.indexed as int), cur_p(list, 0), true),
{
    lemma_cursor_start(s0, list, l);
    let cc = cur_c(list, 0, s0.indexed as int);
    let cp = cur_p(list, 0);
    assert forall|c: int| 0 <= c < s0.lits.len() implies #[trigger] s0.sat[c] == count_eq(
        pass_flags(s0, c, l, cc, cp, true),
        true,
    ) by {
        assert forall|p: int| 0 <= p < s0.lits[c].len() implies pass_flags(s0, c, l, cc, cp, true)[p]
            == s0.true_flags(c)[p] by {
            if s0.lits[c][p] == l {
                assert(s0.is_pos(c, p));
            }
        }
        assert(pass_flags(s0, c, l, cc, cp, true) =~= s0.true_flags(c));
    }
}

/// One step of a pass over the true side keeps `sat_pass_inv`, and the
/// counters it changes stay in range.
pub proof fn lemma_sat_pass_step(s: State, s0: State, l: Lit, list: Seq<Occ>, i: int, fwd: bool)
    requires
        s0.shape(),
        s0.indexed == s0.lits.len(),
        s0.occ_list_ok(list, l),
        !s0.lit_true(l),
        0 <= i < list.len(),
        sat_pass_inv(s, s0, l, cur_c(list, i, s0.indexed as int), cur_p(list, i), fwd),
    ensures
        0 <= list[i].0 < s.sat.len(),
        fwd ==> s.sat[list[i].0 as int] < usize::MAX,
        fwd && s.sat[list[i].0 as int] == 0 ==> s.unsat >= 1,
        !fwd ==> s.sat[list[i].0 as int] >= 1,
        !fwd && s.sat[list[i].0 as int] == 1 ==> s.unsat < usize::MAX,
        sat_pass_inv(
            sat_step(s, list[i].0 as int, fwd),
            s0,
            l,
            cur_c(list, i + 1, s0.indexed as int),
            cur_p(list, i + 1),
            fwd,
        ),
{
    let end = s0.indexed as int;
    let c = list[i].0 as int;
    let p = list[i].1 as int;
    let cc = cur_c(list, i, end);
    let cp = cur_p(list, i);
    let dc = cur_c(list, i + 1, end);
    let dp = cur_p(list, i + 1);
    let s2 = sat_step(s, c, fwd);
    lemma_cursor_step(s0, list, l, i);
    let f = pass_flags(s0, c, l, cc, cp, fwd);
    let g = pass_flags(s0, c, l, dc, dp, fwd);
    assert(g =~= f.update(p, fwd)) by {
        assert forall|q: int| 0 <= q < s0.lits[c].len() implies g[q] == f.update(p, fwd)[q] by {
            if s0.lits[c][q] == l {
                assert(s0.is_pos(c, q));
            }
        }
    }
    assert(f[p] == !fwd);
    lemma_count_update(f, p, fwd, true);
    lemma_count_bound(g, true);
    lemma_count_bound(f, true);
    assert forall|d: int| 0 <= d < s2.lits.len() implies #[trigger] s2.sat[d] == count_eq(
        pass_flags(s0, d, l, dc, dp, fwd),
        true,
    ) by {
        if d != c {
            assert forall|q: int| 0 <= q < s0.lits[d].len() implies pass_flags(
                s0,
                d,
                l,
                dc,
                dp,
                fwd,
            )[q] == pass_flags(s0, d, l, cc, cp, fwd)[q] by {
                if s0.lits[d][q] == l {
                    assert(s0.is_pos(d, q));
                }
            }
            assert(pass_flags(s0, d, l, dc, dp, fwd) =~= pass_flags(s0, d, l, cc, cp, fwd));
        } else {
            assert(s0.marks[c].len() == s0.lits[c].len());
            assert(s.sat[c] == count_eq(f, true));
            assert(s2.sat[c] == count_eq(g, true));
        }
    }
    let z = s.zero_flags();
    let z2 = s2.zero_flags();
    assert(z2 =~= z.update(c, s2.sat[c] == 0));
    lemma_count_update(z, c, s2.sat[c] == 0, true);
    lemma_count_bound(z2, true);
    lemma_count_bound(z, true);
}

/// When a forward pass is through, the counters are those of the state in
/// which the literal is true.
pub proof fn lemma_sat_pass_end(s: State, s0: State, l: Lit, list: Seq<Occ>)
    requires
        s0.shape(),
        s0.indexed == s0.lits.len(),
        0 <= l.var_index() < s0.value.len(),
        !s0.propagated[l.var_index()],
        s0.value[l.var_index()] == l.polarity(),
        sat_pass_inv(
            s,
            s0,
            l,
            cur_c(list, list.len() as int, s0.indexed as int),
            cur_p(list, list.len() as int),
            true,
        ),
        s.propagated == s0.propagated.update(l.var_index(), true),
    ensures
        s.sat_ok(),
{
    let cc = cur_c(list, list.len() as int, s0.indexed as int);
    let cp = cur_p(list, list.len() as int);
    lemma_cursor_end(s0, list, l);
    assert forall|c: int| 0 <= c < s.lits.len() implies #[trigger] s.sat[c] == count_eq(
        s.true_flags(c),
        true,
    ) by {
        assert forall|p: int| 0 <= p < s0.lits[c].len() implies pass_flags(s0, c, l, cc, cp, true)[p]
            == s.true_flags(c)[p] by {
            assert(s0.is_pos(c, p));
            let m = s0.lits[c][p];
            assert(m.var.num < s0.value.len());
            if m.var_index() == l.var_index() {
                if m.positive == l.positive {
                    assert(m == l);
                }
            }
        }
        assert(pass_flags(s0, c, l, cc, cp, true) =~= s.true_flags(c));
    }
}

/// A backward pass starts from the counters of the state in which the
/// literal is true.
pub proof fn lemma_sat_unpass_start(s: State, s0: State, l: Lit, list: Seq<Occ>)
    requires
        s0.shape(),
        s0.indexed == s0.lits.len(),
        0 <= l.var_index() < s0.value.len(),
        !s0.propagated[l.var_index()],
        s0.value[l.var_index()] == l.polarity(),
        s0.occ_list_ok(list, l),
        same_frame(s, s0),
        s.sat_ok(),
        s.unsat_ok(),
        s.propagated == s0.propagated.update(l.var_index(), true),
    ensures
        sat_pass_inv(s, s0, l, cur_c(list, 0, s0.indexed as int), cur_p(list, 0), false),
{
    let cc = cur_c(list, 0, s0.indexed as int);
    let cp = cur_p(list, 0);
    lemma_cursor_start(s0, list, l);
    assert forall|c: int| 0 <= c < s.lits.len() implies #[trigger] s.sat[c] == count_eq(
        pass_flags(s0, c, l, cc, cp, false),
        true,
    ) by {
        assert forall|p: int| 0 <= p < s0.lits[c].len() implies pass_flags(
            s0,
            c,
            l,
            cc,
            cp,
            false,
        )[p] == s.true_flags(c)[p] by {
            assert(s0.is_pos(c, p));
            let m = s0.lits[c][p];
            assert(m.var.num < s0.value.len());
            if m.var_index() == l.var_index() {
                if m.positive == l.positive {
                    assert(m == l);
                }
            }
        }
        assert(pass_flags(s0, c, l, cc, cp, false) =~= s.true_flags(c));
    }
}

/// When a backward pass is through, the counters are those of `s0`.
pub proof fn lemma_sat_unpass_end(s: State, s0: State, l: Lit, list: Seq<Occ>)
    requires
        s0.shape(),
        s0.sat_ok(),
        s0.unsat_ok(),
        s0.indexed == s0.lits.len(),
        sat_pass_inv(
            s,
            s0,
            l,
            cur_c(list, list.len() as int, s0.indexed as int),
            cur_p(list, list.len() as int),
            false,
        ),
    ensures
        s.sat == s0.sat,
        s.unsat == s0.unsat,
{
    let cc = cur_c(list, list.len() as int, s0.indexed as int);
    let cp = cur_p(list, list.len() as int);
    lemma_cursor_end(s0, list, l);
    assert forall|c: int| 0 <= c < s.lits.len() implies s.sat[c] == s0.sat[c] by {
        assert forall|p: int| 0 <= p < s0.lits[c].len() implies pass_flags(
            s0,
            c,
            l,
            cc,
            cp,
            false,
        )[p] == s0.true_flags(c)[p] by {
            assert(s0.is_pos(c, p));
        }
        assert(pass_flags(s0, c, l, cc, cp, false) =~= s0.true_flags(c));
    }
    assert(s.sat =~= s0.sat);
    assert(s.zero_flags() =~= s0.zero_flags());
}

/// The number of true literals that clause `c` has once literal `l` has
/// become true.
pub open spec fn fsat(s0: State, c: int, l: Lit) -> nat {
    count_eq(fsat_flags(s0, c, l), true)
}

/// For each position of clause `c`: whether its literal is true once `l` is.
pub open spec fn fsat_flags(s0: State, c: int, l: Lit) -> Seq<bool> {
    Seq::new(s0.lits[c].len(), |p: int| s0.lit_true(s0.lits[c][p]) || s0.lits[c][p] == l)
}

/// The marks of `s` are those of `s0` and, in the clauses that `sl` does not
/// satisfy, those of the positions of the opposite literal that a pass has
/// reached (`fwd`) or has not yet reached again.
pub open spec fn marks_mid(s: State, s0: State, sl: Lit, cc: int, cp: int, fwd: bool) -> bool {
    forall|c: int, p: int|
        0 <= c < s0.lits.len() && 0 <= p < s0.lits[c].len() ==> #[trigger] s.marks[c][p] == (
        s0.marks[c][p] || (fsat(s0, c, sl) == 0 && s0.lits[c][p] == sl.negated() && (before(
            c,
            p,
            cc,
            cp,
        ) == fwd)))
}

/// An expected value that `s0` had is still there, and a variable of which
/// no clause asks anything has none.
pub open spec fn expect_link(s: State, s0: State) -> bool {
    forall|v: int|
        0 <= v < s0.value.len() ==> (s0.expected[v].1 > 0 ==> (#[trigger] s.expected[v]).0
            == s0.expected[v].0) && (s.expected[v].1 == 0 ==> s.expected[v].0 == VarValue::VUndef)
}

/// What holds of marks and expected values during a pass over the false side.
pub open spec fn mark_pass_inv(s: State, s0: State, sl: Lit, cc: int, cp: int, fwd: bool) -> bool {
    &&& same_frame(s, s0)
    &&& forall|c: int| 0 <= c < s0.lits.len() ==> (#[trigger] s.marks[c]).len() == s0.lits[c].len()
    &&& marks_mid(s, s0, sl, cc, cp, fwd)
    &&& s.expected_ok(sl.var_index())
    &&& expect_link(s, s0)
}

/// `s0` is a state between two steps of a search in which the variable of
/// `sl` has the value that makes `sl` true, not yet propagated.
pub open spec fn pass_pre(s0: State, sl: Lit) -> bool {
    &&& s0.core_inv()
    &&& 0 <= sl.var_index() < s0.value.len()
    &&& !s0.propagated[sl.var_index()]
    &&& s0.value[sl.var_index()] == sl.polarity()
}

/// `s1` is what a forward pass makes of `s0`.
pub open spec fn forward_of(s1: State, s0: State, sl: Lit) -> bool {
    &&& mark_pass_inv(s1, s0, sl, s0.indexed as int, 0, true)
    &&& s1.sat_ok()
    &&& s1.unsat_ok()
    &&& s1.propagated == s0.propagated.update(sl.var_index(), true)
}

/// The state with the mark at position `p` of clause `c` set to `m`.
pub open spec fn mark_step(s: State, c: int, p: int, m: bool) -> State {
    State { marks: s.marks.update(c, s.marks[c].update(p, m)), ..s }
}

/// The state after clause `c`, left with one literal, has asked for the
/// value of that literal.
pub open spec fn ask(s: State, c: int) -> State {
    let l = s.first(c);
    let e = s.expected[l.var_index()];
    State {
        expected: s.expected.update(
            l.var_index(),
            (
                if e.0.soft_equals(l.polarity()) {
                    l.polarity()
                } else {
                    e.0
                },
                (e.1 + 1) as usize,
            ),
        ),
        ..s
    }
}

/// The state after clause `c`, about to get a second literal back, has
/// withdrawn what it asked.
pub open spec fn unask(s: State, c: int) -> State {
    let l = s.first(c);
    let e = s.expected[l.var_index()];
    State {
        expected: s.expected.update(
            l.var_index(),
            (
                if e.1 == 1 {
                    VarValue::VUndef
                } else {
                    e.0
                },
                (e.1 - 1) as usize,
            ),
        ),
        ..s
    }
}

/// In `s0` no literal of the variable of `sl` is marked.
pub proof fn lemma_own_unmarked(s0: State, sl: Lit, c: int, p: int)
    requires
        pass_pre(s0, sl),
        0 <= c < s0.lits.len(),
        0 <= p < s0.lits[c].len(),
        s0.lits[c][p].var_index() == sl.var_index(),
    ensures
        !s0.marks[c][p],
{
}

/// A clause whose counter is zero once `sl` is true had a zero counter in
/// `s0` and does not hold `sl`.
pub proof fn lemma_fsat_zero(s0: State, sl: Lit, c: int)
    requires
        s0.shape(),
        s0.sat_ok(),
        0 <= c < s0.lits.len(),
        fsat(s0, c, sl) == 0,
    ensures
        s0.sat[c] == 0,
        forall|p: int| 0 <= p < s0.lits[c].len() ==> #[trigger] s0.lits[c][p] != sl,
{
    let f = fsat_flags(s0, c, sl);
    lemma_count_zero(f, true);
    lemma_count_zero(s0.true_flags(c), true);
    assert forall|p: int| 0 <= p < s0.lits[c].len() implies #[trigger] s0.lits[c][p] != sl by {
        assert(!f[p]);
    }
    assert forall|p: int| 0 <= p < s0.lits[c].len() implies !#[trigger] s0.true_flags(c)[p] by {
        assert(!f[p]);
    }
}

/// A clause whose counter is zero in `s0` and positive once `sl` is true
/// holds `sl`.
pub proof fn lemma_fsat_pos(s0: State, sl: Lit, c: int) -> (q: int)
    requires
        s0.shape(),
        s0.sat_ok(),
        0 <= c < s0.lits.len(),
        s0.sat[c] == 0,
        fsat(s0, c, sl) > 0,
    ensures
        0 <= q < s0.lits[c].len(),
        s0.lits[c][q] == sl,
{
    let f = fsat_flags(s0, c, sl);
    lemma_count_zero(f, true);
    lemma_count_zero(s0.true_flags(c), true);
    let q = choose|q: int| 0 <= q < f.len() && f[q];
    assert(!s0.true_flags(c)[q]);
    q
}

/// While the variable of `sl` is propagated, the counters are `fsat`.
pub proof fn lemma_fsat(s: State, s0: State, sl: Lit, c: int)
    requires
        pass_pre(s0, sl),
        same_frame(s, s0),
        s.sat_ok(),
        s.propagated == s0.propagated.update(sl.var_index(), true),
        0 <= c < s0.lits.len(),
    ensures
        s.sat[c] == fsat(s0, c, sl),
{
    let f = fsat_flags(s0, c, sl);
    assert forall|p: int| 0 <= p < s0.lits[c].len() implies f[p] == s.true_flags(c)[p] by {
        let m = s0.lits[c][p];
        assert(m.var.num < s0.value.len());
        if m.var_index() == sl.var_index() {
            if m.positive == sl.positive {
                assert(m == sl);
            }
        }
    }
    assert(f =~= s.true_flags(c));
}

/// What a clause asked in `s0` it still asks during a pass.
pub proof fn lemma_target_persists(
    s: State,
    s0: State,
    sl: Lit,
    cc: int,
    cp: int,
    fwd: bool,
    d: int,
)
    requires
        pass_pre(s0, sl),
        same_frame(s, s0),
        forall|c: int| 0 <= c < s0.lits.len() ==> (#[trigger] s.marks[c]).len() == s0.lits[c].len(),
        marks_mid(s, s0, sl, cc, cp, fwd),
        0 <= d < s0.lits.len(),
        s0.target(d, -1) >= 0,
    ensures
        s.target(d, sl.var_index()) == s0.target(d, -1),
{
    assert(s0.live(d) >= 1);
    assert(s0.live(d) == 1);
    let k = first_eq(s0.marks[d], false);
    lemma_first_eq(s0.marks[d], false);
    lemma_count_one(s0.marks[d], false, k);
    assert(s.marks[d].len() == s0.marks[d].len());
    if s.marks[d][k] {
        assert forall|q: int| 0 <= q < s.marks[d].len() implies s.marks[d][q] != false by {
            if q != k {
                assert(s0.marks[d][q]);
                assert(s.marks[d][q]);
            }
        }
        lemma_count_zero(s.marks[d], false);
        assert(s0.lits[d][k] == sl.negated());
    } else {
        assert forall|q: int| 0 <= q < s.marks[d].len() implies s.marks[d][q] == s0.marks[d][q] by {
            if q != k {
                assert(s0.marks[d][q]);
                assert(s.marks[d][q]);
            }
        }
        assert(s.marks[d] =~= s0.marks[d]);
    }
}

/// A step of a pass that sets the mark under the cursor to what the pass
/// wants of it, and no other mark, keeps `marks_mid`.
pub proof fn lemma_marks_advance(
    s: State,
    s2: State,
    s0: State,
    sl: Lit,
    list: Seq<Occ>,
    i: int,
    fwd: bool,
)
    requires
        pass_pre(s0, sl),
        s0.occ_list_ok(list, sl.negated()),
        0 <= i < list.len(),
        same_frame(s, s0),
        same_frame(s2, s0),
        forall|c: int| 0 <= c < s0.lits.len() ==> (#[trigger] s.marks[c]).len() == s0.lits[c].len(),
        forall|c: int| 0 <= c < s0.lits.len() ==> (#[trigger] s2.marks[c]).len() == s0.lits[c].len(),
        marks_mid(s, s0, sl, cur_c(list, i, s0.indexed as int), cur_p(list, i), fwd),
        forall|c: int, p: int|
            0 <= c < s0.lits.len() && 0 <= p < s0.lits[c].len() && !(c == list[i].0 && p
                == list[i].1) ==> #[trigger] s2.marks[c][p] == s.marks[c][p],
        s2.marks[list[i].0 as int][list[i].1 as int] == (fsat(s0, list[i].0 as int, sl) == 0
            && fwd),
    ensures
        marks_mid(s2, s0, sl, cur_c(list, i + 1, s0.indexed as int), cur_p(list, i + 1), fwd),
{
    let ul = sl.negated();
    let end = s0.indexed as int;
    lemma_cursor_step(s0, list, ul, i);
    let d0 = list[i].0 as int;
    let q0 = list[i].1 as int;
    lemma_own_unmarked(s0, sl, d0, q0);
    assert forall|c: int, p: int| 0 <= c < s0.lits.len() && 0 <= p < s0.lits[c].len() implies (
    #[trigger] s2.marks[c][p]) == (s0.marks[c][p] || (fsat(s0, c, sl) == 0 && s0.lits[c][p] == ul
        && (before(c, p, cur_c(list, i + 1, end), cur_p(list, i + 1)) == fwd))) by {
        assert(s0.is_pos(c, p));
        if c == d0 && p == q0 {
        } else {
            assert(s2.marks[c][p] == s.marks[c][p]);
            if s0.lits[c][p] == ul {
                assert(before(c, p, cur_c(list, i + 1, end), cur_p(list, i + 1)) == before(
                    c,
                    p,
                    cur_c(list, i, end),
                    cur_p(list, i),
                ));
            }
        }
    }
}

/// A change of the marks of one clause and of the expected count of the
/// variables that the clause asked and asks keeps `expected_ok`.
pub proof fn lemma_expected_move(s: State, s2: State, c: int, cur: int)
    requires
        s.shape(),
        s.expected_ok(cur),
        s2.lits == s.lits,
        s2.value == s.value,
        s2.marks.len() == s.marks.len(),
        s2.expected.len() == s.expected.len(),
        0 <= c < s.lits.len(),
        forall|d: int| 0 <= d < s.lits.len() && d != c ==> #[trigger] s2.marks[d] == s.marks[d],
        forall|v: int|
            0 <= v < s.value.len() ==> (#[trigger] s2.expected[v]).1 + (if s.target(c, cur) == v {
                1int
            } else {
                0int
            }) == s.expected[v].1 + (if s2.target(c, cur) == v {
                1int
            } else {
                0int
            }),
    ensures
        s2.expected_ok(cur),
{
    assert forall|v: int| 0 <= v < s2.value.len() implies (#[trigger] s2.expected[v]).1 == count_eq(
        s2.target_flags(v, cur),
        true,
    ) by {
        let f = s.target_flags(v, cur);
        let g = s2.target_flags(v, cur);
        assert forall|d: int| 0 <= d < s.lits.len() implies g[d] == f.update(
            c,
            s2.target(c, cur) == v,
        )[d] by {
            if d != c {
                assert(s2.marks[d] == s.marks[d]);
            }
        }
        assert(g =~= f.update(c, s2.target(c, cur) == v));
        lemma_count_update(f, c, s2.target(c, cur) == v, true);
        assert(s.expected[v].1 == count_eq(f, true));
    }
}

/// The state after the step of a forward pass that stands at position `p`
/// of clause `c`.
pub open spec fn fwd_step(s: State, c: int, p: int) -> State {
    if s.sat[c] != 0 {
        s
    } else if mark_step(s, c, p, true).live(c) == 1 {
        ask(mark_step(s, c, p, true), c)
    } else {
        mark_step(s, c, p, true)
    }
}

/// The step of a forward pass at position `p` of clause `c` meets a
/// conflict: the clause is left without a literal, or with one literal that
/// asks the opposite of what is expected.
pub open spec fn fwd_clash(s: State, c: int, p: int) -> bool {
    let s2 = mark_step(s, c, p, true);
    s.sat[c] == 0 && (s2.live(c) == 0 || (s2.live(c) == 1 && !s2.expected[s2.first(
        c,
    ).var_index()].0.soft_equals(s2.first(c).polarity())))
}

/// What holds during the forward pass over the false side.
pub open spec fn fwd_inv(s: State, s0: State, sl: Lit, cc: int, cp: int, result: bool) -> bool {
    &&& mark_pass_inv(s, s0, sl, cc, cp, true)
    &&& s.propagated == s0.propagated.update(sl.var_index(), true)
    &&& s.sat_ok()
    &&& s.unsat_ok()
    &&& s.marks_weak()
    &&& !result ==> s.no_empty() && s.expected_val_ok()
    &&& result ==> !crate::formula::up_ok(s.lits, s.assigned())
}

/// The forward pass over the false side starts from the marks and expected
/// values of `s0`.
pub proof fn lemma_fwd_start(s: State, s0: State, sl: Lit, list: Seq<Occ>)
    requires
        pass_pre(s0, sl),
        s0.occ_list_ok(list, sl.negated()),
        same_frame(s, s0),
        s.marks == s0.marks,
        s.expected == s0.expected,
        s.propagated == s0.propagated.update(sl.var_index(), true),
        s.sat_ok(),
        s.unsat_ok(),
    ensures
        fwd_inv(s, s0, sl, cur_c(list, 0, s0.indexed as int), cur_p(list, 0), false),
{
    let ul = sl.negated();
    let var = sl.var_index();
    lemma_cursor_start(s0, list, ul);
    assert(marks_mid(s, s0, sl, cur_c(list, 0, s0.indexed as int), cur_p(list, 0), true)) by {
        assert forall|c: int, p: int|
            0 <= c < s0.lits.len() && 0 <= p < s0.lits[c].len() implies #[trigger] s.marks[c][p]
            == (s0.marks[c][p] || (fsat(s0, c, sl) == 0 && s0.lits[c][p] == ul && (before(
            c,
            p,
            cur_c(list, 0, s0.indexed as int),
            cur_p(list, 0),
        ) == true))) by {
            assert(s0.is_pos(c, p));
        }
    }
    assert(s.expected_ok(var)) by {
        assert forall|v: int| 0 <= v < s.value.len() implies (#[trigger] s.expected[v]).1
            == count_eq(s.target_flags(v, var), true) by {
            assert forall|c: int| 0 <= c < s.lits.len() implies s.target_flags(v, var)[c]
                == s0.target_flags(v, -1)[c] by {
                assert(s0.live(c) >= 1);
            }
            assert(s.target_flags(v, var) =~= s0.target_flags(v, -1));
        }
    }
    assert(s.marks_weak()) by {
        assert forall|c: int, p: int|
            0 <= c < s.lits.len() && 0 <= p < s.lits[c].len() && #[trigger] s.marks[c][p] implies s.lit_false(
            s.lits[c][p],
        ) by {
            assert(s0.marks[c][p]);
            assert(s0.lit_false(s0.lits[c][p]));
            assert(s0.lits[c][p].var.num < s0.value.len());
        }
    }
    assert(s.no_empty()) by {
        assert forall|c: int| 0 <= c < s.lits.len() implies #[trigger] s.live(c) >= 1 by {
            assert(s0.live(c) >= 1);
        }
    }
    assert(s.expected_val_ok()) by {
        assert forall|c: int|
            0 <= c < s.lits.len() && s.lits[c].len() >= 2 && #[trigger] s.live(c)
                == 1 implies s.first(c).polarity() == s.expected[s.first(c).var_index()].0 by {
            assert(s0.live(c) == 1);
        }
    }
}

/// A state within the frame of a well-shaped one, with marks of the right
/// lengths, is well-shaped.
pub proof fn lemma_shape_frame(s: State, s0: State)
    requires
        s0.shape(),
        same_frame(s, s0),
        forall|c: int| 0 <= c < s0.lits.len() ==> (#[trigger] s.marks[c]).len() == s0.lits[c].len(),
    ensures
        s.shape(),
{
    assert forall|c: int| 0 <= c < s.lits.len() implies (#[trigger] s.marks[c]).len()
        == s.lits[c].len() && s.lits[c].len() <= usize::MAX by {
        assert(s0.marks[c].len() == s0.lits[c].len());
    }
}

/// Counters that are right stay right where only marks and expected values
/// change.
pub proof fn lemma_sat_frame(s: State, s2: State)
    requires
        s2.lits == s.lits,
        s2.value == s.value,
        s2.propagated == s.propagated,
        s2.sat == s.sat,
        s2.unsat == s.unsat,
        s2.indexed == s.indexed,
    ensures
        s.sat_ok() ==> s2.sat_ok(),
        s.unsat_ok() ==> s2.unsat_ok(),
        s2.assigned() == s.assigned(),
{
    assert(s2.assigned() =~= s.assigned());
    assert(s2.zero_flags() =~= s.zero_flags());
    if s.sat_ok() {
        assert forall|c: int| 0 <= c < s2.lits.len() implies #[trigger] s2.sat[c] == count_eq(
            s2.true_flags(c),
            true,
        ) by {
            assert(s2.true_flags(c) =~= s.true_flags(c));
            assert(s.sat[c] == count_eq(s.true_flags(c), true));
        }
    }
}

/// The step of a forward pass at a clause that a true literal satisfies.
pub proof fn lemma_fwd_step_skip(s: State, s0: State, sl: Lit, list: Seq<Occ>, i: int, result: bool)
    requires
        pass_pre(s0, sl),
        s0.occ_list_ok(list, sl.negated()),
        0 <= i < list.len(),
        fwd_inv(s, s0, sl, cur_c(list, i, s0.indexed as int), cur_p(list, i), result),
        s.sat[list[i].0 as int] != 0,
    ensures
        fwd_inv(s, s0, sl, cur_c(list, i + 1, s0.indexed as int), cur_p(list, i + 1), result),
{
    let c = list[i].0 as int;
    let p = list[i].1 as int;
    lemma_cursor_step(s0, list, sl.negated(), i);
    lemma_fsat(s, s0, sl, c);
    lemma_own_unmarked(s0, sl, c, p);
    assert(s.marks[c][p] == (s0.marks[c][p] || (fsat(s0, c, sl) == 0 && s0.lits[c][p]
        == sl.negated() && (before(c, p, cur_c(list, i, s0.indexed as int), cur_p(list, i))
        == true))));
    lemma_marks_advance(s, s, s0, sl, list, i, true);
}

/// What the step of a forward pass at a clause without a true literal does
/// to the marks: the literal under the cursor was unmarked and is marked, and
/// the marks stay those of false literals.
pub proof fn lemma_fwd_step_mark(s: State, s0: State, sl: Lit, list: Seq<Occ>, i: int, result: bool)
    requires
        pass_pre(s0, sl),
        s0.occ_list_ok(list, sl.negated()),
        0 <= i < list.len(),
        fwd_inv(s, s0, sl, cur_c(list, i, s0.indexed as int), cur_p(list, i), result),
        s.sat[list[i].0 as int] == 0,
    ensures
        0 <= list[i].0 < s0.lits.len(),
        0 <= list[i].1 < s0.lits[list[i].0 as int].len(),
        s0.lits[list[i].0 as int][list[i].1 as int] == sl.negated(),
        !s.marks[list[i].0 as int][list[i].1 as int],
        s.shape(),
        ({
            let s2 = mark_step(s, list[i].0 as int, list[i].1 as int, true);
            &&& s2.shape()
            &&& same_frame(s2, s0)
            &&& s2.live(list[i].0 as int) + 1 == s.live(list[i].0 as int)
            &&& s.live(list[i].0 as int) <= s0.lits[list[i].0 as int].len()
            &&& marks_mid(
                s2,
                s0,
                sl,
                cur_c(list, i + 1, s0.indexed as int),
                cur_p(list, i + 1),
                true,
            )
            &&& s2.marks_weak()
            &&& s2.sat_ok()
            &&& s2.unsat_ok()
            &&& s2.assigned() == s.assigned()
            &&& forall|d: int|
                0 <= d < s0.lits.len() && d != list[i].0 ==> #[trigger] s2.marks[d] == s.marks[d]
        }),
{
    let c = list[i].0 as int;
    let p = list[i].1 as int;
    let ul = sl.negated();
    lemma_cursor_step(s0, list, ul, i);
    lemma_fsat(s, s0, sl, c);
    lemma_own_unmarked(s0, sl, c, p);
    lemma_shape_frame(s, s0);
    assert(s.marks[c][p] == (s0.marks[c][p] || (fsat(s0, c, sl) == 0 && s0.lits[c][p] == ul && (
    before(c, p, cur_c(list, i, s0.indexed as int), cur_p(list, i)) == true))));
    let s2 = mark_step(s, c, p, true);
    assert(s.marks[c].len() == s0.lits[c].len());
    lemma_count_update(s.marks[c], p, true, false);
    lemma_count_bound(s.marks[c], false);
    assert forall|d: int| 0 <= d < s0.lits.len() implies (#[trigger] s2.marks[d]).len()
        == s0.lits[d].len() by {
        assert(s.marks[d].len() == s0.lits[d].len());
    }
    lemma_shape_frame(s2, s0);
    lemma_marks_advance(s, s2, s0, sl, list, i, true);
    lemma_sat_frame(s, s2);
    assert(s2.marks_weak()) by {
        assert forall|d: int, q: int|
            0 <= d < s2.lits.len() && 0 <= q < s2.lits[d].len() && #[trigger] s2.marks[d][q] implies s2.lit_false(
            s2.lits[d][q],
        ) by {
            if d == c && q == p {
            } else {
                assert(s.marks[d][q]);
            }
        }
    }
}

/// The step of a forward pass that leaves its clause with no literal, or
/// with two or more.
pub proof fn lemma_fwd_step_plain(s: State, s0: State, sl: Lit, list: Seq<Occ>, i: int, result: bool)
    requires
        pass_pre(s0, sl),
        s0.occ_list_ok(list, sl.negated()),
        0 <= i < list.len(),
        fwd_inv(s, s0, sl, cur_c(list, i, s0.indexed as int), cur_p(list, i), result),
        s.sat[list[i].0 as int] == 0,
        mark_step(s, list[i].0 as int, list[i].1 as int, true).live(list[i].0 as int) != 1,
    ensures
        fwd_inv(
            mark_step(s, list[i].0 as int, list[i].1 as int, true),
            s0,
            sl,
            cur_c(list, i + 1, s0.indexed as int),
            cur_p(list, i + 1),
            result || mark_step(s, list[i].0 as int, list[i].1 as int, true).live(list[i].0 as int)
                == 0,
        ),
{
    let c = list[i].0 as int;
    let p = list[i].1 as int;
    let var = sl.var_index();
    let s2 = mark_step(s, c, p, true);
    lemma_fwd_step_mark(s, s0, sl, list, i, result);
    if s2.live(c) == 0 {
        lemma_first_eq(s.marks[c], false);
        lemma_count_one(s.marks[c], false, first_eq(s.marks[c], false));
        assert(first_eq(s.marks[c], false) == p);
        assert(s.first(c) == sl.negated());
        crate::formula::lemma_empty_refutes_up(s2, c);
    }
    assert(s.target(c, var) == s2.target(c, var));
    lemma_expected_move(s, s2, c, var);
    if !(result || s2.live(c) == 0) {
        assert forall|d: int| 0 <= d < s2.lits.len() implies #[trigger] s2.live(d) >= 1 by {
            if d != c {
                assert(s2.marks[d] == s.marks[d]);
                assert(s.live(d) >= 1);
            }
        }
        assert forall|d: int|
            0 <= d < s2.lits.len() && s2.lits[d].len() >= 2 && #[trigger] s2.live(d)
                == 1 implies s2.first(d).polarity() == s2.expected[s2.first(d).var_index()].0 by {
            assert(s2.marks[d] == s.marks[d]);
            assert(s.live(d) == 1);
        }
    }
}

/// A positive count of clauses that ask a value of `v` has a witness.
pub proof fn lemma_asker(s: State, v: int, cur: int) -> (d: int)
    requires
        s.expected_ok(cur),
        0 <= v < s.value.len(),
        s.expected[v].1 > 0,
    ensures
        0 <= d < s.lits.len(),
        s.target(d, cur) == v,
{
    let f = s.target_flags(v, cur);
    lemma_count_zero(f, true);
    let d = choose|d: int| 0 <= d < f.len() && f[d] == true;
    d
}

/// The step of a forward pass that leaves its clause with one literal.
pub proof fn lemma_fwd_step_unit(s: State, s0: State, sl: Lit, list: Seq<Occ>, i: int, result: bool)
    requires
        pass_pre(s0, sl),
        s0.occ_list_ok(list, sl.negated()),
        0 <= i < list.len(),
        fwd_inv(s, s0, sl, cur_c(list, i, s0.indexed as int), cur_p(list, i), result),
        s.sat[list[i].0 as int] == 0,
        mark_step(s, list[i].0 as int, list[i].1 as int, true).live(list[i].0 as int) == 1,
    ensures
        ({
            let s2 = mark_step(s, list[i].0 as int, list[i].1 as int, true);
            let l = s2.first(list[i].0 as int);
            &&& 0 <= l.var_index() < s0.value.len()
            &&& s.expected[l.var_index()].1 < usize::MAX
            &&& fwd_inv(
                ask(s2, list[i].0 as int),
                s0,
                sl,
                cur_c(list, i + 1, s0.indexed as int),
                cur_p(list, i + 1),
                result || !s.expected[l.var_index()].0.soft_equals(l.polarity()),
            )
        }),
{
    let c = list[i].0 as int;
    let p = list[i].1 as int;
    let var = sl.var_index();
    let s2 = mark_step(s, c, p, true);
    lemma_fwd_step_mark(s, s0, sl, list, i, result);
    lemma_first_eq(s2.marks[c], false);
    let k = first_eq(s2.marks[c], false);
    let l = s2.first(c);
    let v = l.var_index();
    assert(l == s0.lits[c][k]);
    assert(l.var.num < s0.value.len());
    let e = s.expected[v];
    let s3 = ask(s2, c);
    assert(s0.lits[c].len() >= 2);
    assert(s.target(c, var) == -1);
    assert(s3.marks == s2.marks);
    assert(s3.target(c, var) == v);
    // the count of the variable goes up by one
    let f = s.target_flags(v, var);
    let g = s3.target_flags(v, var);
    assert(g =~= f.update(c, true)) by {
        assert forall|d: int| 0 <= d < s.lits.len() implies g[d] == f.update(c, true)[d] by {
            if d != c {
                assert(s3.marks[d] == s.marks[d]);
            }
        }
    }
    lemma_count_update(f, c, true, true);
    lemma_count_bound(g, true);
    assert(e.1 == count_eq(f, true));
    assert(e.1 + 1 <= usize::MAX);
    lemma_expected_move(s, s3, c, var);
    lemma_sat_frame(s2, s3);
    assert forall|d: int| 0 <= d < s0.lits.len() implies (#[trigger] s3.marks[d]).len()
        == s0.lits[d].len() by {
        assert(s2.marks[d].len() == s2.lits[d].len());
    }
    assert(expect_link(s3, s0)) by {
        assert forall|w: int| 0 <= w < s0.value.len() implies (s0.expected[w].1 > 0 ==> (
        #[trigger] s3.expected[w]).0 == s0.expected[w].0) && (s3.expected[w].1 == 0
            ==> s3.expected[w].0 == VarValue::VUndef) by {
            assert(s.expected[w].1 >= 0);
            if w == v {
                if s0.expected[w].1 > 0 {
                    assert(s0.expected[w].0 != VarValue::VUndef);
                }
            }
        }
    }
    let clash = !e.0.soft_equals(l.polarity());
    if result {
    } else if clash {
        assert(e.0 != VarValue::VUndef);
        assert(e.1 > 0);
        let d = lemma_asker(s, v, var);
        assert(s.live(d) >= 1);
        assert(d != c);
        assert(s3.marks[d] == s.marks[d]);
        assert(s.first(d).polarity() == s.expected[s.first(d).var_index()].0);
        lemma_shape_frame(s3, s0);
        crate::formula::lemma_units_clash_up(s3, c, d);
    } else {
        assert forall|d: int| 0 <= d < s3.lits.len() implies #[trigger] s3.live(d) >= 1 by {
            if d != c {
                assert(s3.marks[d] == s.marks[d]);
                assert(s.live(d) >= 1);
            }
        }
        assert forall|w: int| 0 <= w < s3.value.len() implies ((#[trigger] s3.expected[w]).1 == 0
            <==> s3.expected[w].0 == VarValue::VUndef) by {
            assert(s.expected[w].1 >= 0);
        }
        assert forall|d: int|
            0 <= d < s3.lits.len() && s3.lits[d].len() >= 2 && #[trigger] s3.live(d)
                == 1 implies s3.first(d).polarity() == s3.expected[s3.first(d).var_index()].0 by {
            if d != c {
                assert(s3.marks[d] == s.marks[d]);
                assert(s.live(d) == 1);
                let w = s.first(d).var_index();
                lemma_first_eq(s.marks[d], false);
                assert(s.first(d).var.num < s0.value.len());
                if w == v {
                    assert(s.target(d, var) == v);
                    lemma_count_pos(f, true, d);
                }
            }
        }
    }
}

/// The step of a forward pass keeps `fwd_inv`, announces a conflict that it
/// meets, and keeps the counters that it changes in range.
pub proof fn lemma_fwd_step(s: State, s0: State, sl: Lit, list: Seq<Occ>, i: int, result: bool)
    requires
        pass_pre(s0, sl),
        s0.occ_list_ok(list, sl.negated()),
        0 <= i < list.len(),
        fwd_inv(s, s0, sl, cur_c(list, i, s0.indexed as int), cur_p(list, i), result),
    ensures
        0 <= list[i].0 < s0.lits.len(),
        0 <= list[i].1 < s0.lits[list[i].0 as int].len(),
        s.sat[list[i].0 as int] == 0 ==> !s.marks[list[i].0 as int][list[i].1 as int],
        s.sat[list[i].0 as int] == 0 && mark_step(
            s,
            list[i].0 as int,
            list[i].1 as int,
            true,
        ).live(list[i].0 as int) == 1 ==> ({
            let l = mark_step(s, list[i].0 as int, list[i].1 as int, true).first(list[i].0 as int);
            0 <= l.var_index() < s0.value.len() && s.expected[l.var_index()].1 < usize::MAX
        }),
        fwd_inv(
            fwd_step(s, list[i].0 as int, list[i].1 as int),
            s0,
            sl,
            cur_c(list, i + 1, s0.indexed as int),
            cur_p(list, i + 1),
            result || fwd_clash(s, list[i].0 as int, list[i].1 as int),
        ),
{
    let c = list[i].0 as int;
    let p = list[i].1 as int;
    lemma_cursor_step(s0, list, sl.negated(), i);
    if s.sat[c] != 0 {
        lemma_fwd_step_skip(s, s0, sl, list, i, result);
    } else {
        lemma_fwd_step_mark(s, s0, sl, list, i, result);
        if mark_step(s, c, p, true).live(c) == 1 {
            lemma_fwd_step_unit(s, s0, sl, list, i, result);
        } else {
            lemma_fwd_step_plain(s, s0, sl, list, i, result);
        }
    }
}

/// When the forward pass is through, the state is the forward image of
/// `s0`; where no conflict was met, it is again a state between two steps of
/// a search.
pub proof fn lemma_fwd_end(s: State, s0: State, sl: Lit, list: Seq<Occ>, result: bool)
    requires
        pass_pre(s0, sl),
        fwd_inv(
            s,
            s0,
            sl,
            cur_c(list, list.len() as int, s0.indexed as int),
            cur_p(list, list.len() as int),
            result,
        ),
    ensures
        forward_of(s, s0, sl),
        s.base_inv(),
        !result ==> s.core_inv(),
        result ==> !crate::formula::up_ok(s.lits, s.assigned()),
        result ==> !crate::formula::sat_under(s.lits, s.assigned()),
{
    let var = sl.var_index();
    lemma_shape_frame(s, s0);
    if result {
        crate::formula::lemma_models_closed(s.lits, s.assigned());
    }
    assert(s.bound_ok());
    assert(s.map_ok()) by {
        assert forall|v: int| 0 <= v < s.value.len() implies #[trigger] s.var_map_ok(v) by {
            assert(s0.var_map_ok(v));
        }
    }
    if !result {
        lemma_cursor_end(s0, list, sl.negated());
        assert(s.marks_exact()) by {
            assert forall|c: int, p: int|
                0 <= c < s.lits.len() && 0 <= p < s.lits[c].len() && s.sat[c] == 0 && s.lit_false(
                    s.lits[c][p],
                ) implies #[trigger] s.marks[c][p] by {
                lemma_fsat(s, s0, sl, c);
                lemma_fsat_zero(s0, sl, c);
                assert(s0.is_pos(c, p));
                let m = s0.lits[c][p];
                assert(m.var.num < s0.value.len());
                if m.var_index() == var {
                    assert(m == sl.negated());
                } else {
                    assert(s0.lit_false(m));
                    assert(s0.marks[c][p]);
                }
            }
        }
        assert(s.expected_ok(-1)) by {
            assert forall|v: int| 0 <= v < s.value.len() implies (#[trigger] s.expected[v]).1
                == count_eq(s.target_flags(v, -1), true) by {
                assert forall|c: int| 0 <= c < s.lits.len() implies s.target_flags(v, var)[c]
                    == s.target_flags(v, -1)[c] by {
                    assert(s.live(c) >= 1);
                }
                assert(s.target_flags(v, var) =~= s.target_flags(v, -1));
            }
        }
    }
}

/// The state after the step of a backward pass that stands at position `p`
/// of clause `c`.
pub open spec fn undo_step(s: State, c: int, p: int) -> State {
    if s.sat[c] == 0 && s.live(c) == 1 {
        mark_step(unask(s, c), c, p, false)
    } else {
        mark_step(s, c, p, false)
    }
}

/// What holds during the backward pass over the false side.
pub open spec fn undo_inv(s: State, s0: State, sl: Lit, cc: int, cp: int) -> bool {
    &&& mark_pass_inv(s, s0, sl, cc, cp, false)
    &&& s.sat == s0.sat
    &&& s.unsat == s0.unsat
    &&& s.propagated == s0.propagated
}

/// The backward pass over the false side starts from the marks and expected
/// values that the forward pass left.
pub proof fn lemma_undo_start(s: State, s1: State, s0: State, sl: Lit, list: Seq<Occ>)
    requires
        pass_pre(s0, sl),
        forward_of(s1, s0, sl),
        s0.occ_list_ok(list, sl.negated()),
        same_frame(s, s0),
        s.marks == s1.marks,
        s.expected == s1.expected,
        s.sat == s0.sat,
        s.unsat == s0.unsat,
        s.propagated == s0.propagated,
    ensures
        undo_inv(s, s0, sl, cur_c(list, 0, s0.indexed as int), cur_p(list, 0)),
{
    let ul = sl.negated();
    let var = sl.var_index();
    lemma_cursor_start(s0, list, ul);
    assert(marks_mid(s, s0, sl, cur_c(list, 0, s0.indexed as int), cur_p(list, 0), false)) by {
        assert forall|c: int, p: int|
            0 <= c < s0.lits.len() && 0 <= p < s0.lits[c].len() implies #[trigger] s.marks[c][p]
            == (s0.marks[c][p] || (fsat(s0, c, sl) == 0 && s0.lits[c][p] == ul && (before(
            c,
            p,
            cur_c(list, 0, s0.indexed as int),
            cur_p(list, 0),
        ) == false))) by {
            assert(s0.is_pos(c, p));
            assert(s1.marks[c][p] == (s0.marks[c][p] || (fsat(s0, c, sl) == 0 && s0.lits[c][p]
                == ul && (before(c, p, s0.indexed as int, 0) == true))));
        }
    }
    assert(s.expected_ok(var)) by {
        assert forall|v: int| 0 <= v < s.value.len() implies (#[trigger] s.expected[v]).1
            == count_eq(s.target_flags(v, var), true) by {
            assert(s.target_flags(v, var) =~= s1.target_flags(v, var));
            assert(s1.expected[v].1 == count_eq(s1.target_flags(v, var), true));
        }
    }
}

/// The step of a backward pass keeps `undo_inv`, and the count that it
/// lowers is positive.
pub proof fn lemma_undo_step(s: State, s0: State, sl: Lit, list: Seq<Occ>, i: int)
    requires
        pass_pre(s0, sl),
        s0.occ_list_ok(list, sl.negated()),
        0 <= i < list.len(),
        undo_inv(s, s0, sl, cur_c(list, i, s0.indexed as int), cur_p(list, i)),
    ensures
        0 <= list[i].0 < s0.lits.len(),
        0 <= list[i].1 < s0.lits[list[i].0 as int].len(),
        s.shape(),
        s.sat[list[i].0 as int] == 0 && s.live(list[i].0 as int) == 1 ==> 0 <= s.first(
            list[i].0 as int,
        ).var_index() < s0.value.len() && s.expected[s.first(list[i].0 as int).var_index()].1
            >= 1,
        undo_inv(
            undo_step(s, list[i].0 as int, list[i].1 as int),
            s0,
            sl,
            cur_c(list, i + 1, s0.indexed as int),
            cur_p(list, i + 1),
        ),
{
    let c = list[i].0 as int;
    let p = list[i].1 as int;
    let ul = sl.negated();
    let var = sl.var_index();
    let end = s0.indexed as int;
    lemma_cursor_step(s0, list, ul, i);
    lemma_own_unmarked(s0, sl, c, p);
    lemma_shape_frame(s, s0);
    assert(s.marks[c].len() == s0.lits[c].len());
    assert(s.marks[c][p] == (s0.marks[c][p] || (fsat(s0, c, sl) == 0 && s0.lits[c][p] == ul && (
    before(c, p, cur_c(list, i, end), cur_p(list, i)) == false))));
    let s3 = undo_step(s, c, p);
    if fsat(s0, c, sl) > 0 {
        assert(!s.marks[c][p]);
        if s0.sat[c] == 0 {
            let q = lemma_fsat_pos(s0, sl, c);
            lemma_own_unmarked(s0, sl, c, q);
            assert(s.marks[c][q] == (s0.marks[c][q] || (fsat(s0, c, sl) == 0 && s0.lits[c][q]
                == ul && (before(c, q, cur_c(list, i, end), cur_p(list, i)) == false))));
            lemma_count_two(s.marks[c], false, p, q);
        }
        assert(s.marks[c].update(p, false) =~= s.marks[c]);
        assert(s.marks.update(c, s.marks[c]) =~= s.marks);
        assert(s3 == s);
        lemma_marks_advance(s, s3, s0, sl, list, i, false);
    } else {
        lemma_fsat_zero(s0, sl, c);
        assert(s.marks[c][p]);
        lemma_count_update(s.marks[c], p, false, false);
        lemma_count_bound(s.marks[c], false);
        let s2 = if s.live(c) == 1 {
            unask(s, c)
        } else {
            s
        };
        if s.live(c) == 1 {
            lemma_first_eq(s.marks[c], false);
            assert(s.first(c) == s0.lits[c][first_eq(s.marks[c], false)]);
            assert(s.first(c).var.num < s0.value.len());
        }
        assert(s3 == mark_step(s2, c, p, false));
        assert(s3.live(c) == s.live(c) + 1);
        assert forall|d: int| 0 <= d < s0.lits.len() implies (#[trigger] s3.marks[d]).len()
            == s0.lits[d].len() by {
            assert(s.marks[d].len() == s0.lits[d].len());
        }
        lemma_marks_advance(s, s3, s0, sl, list, i, false);
        if s.live(c) == 1 {
            lemma_first_eq(s.marks[c], false);
            let k = first_eq(s.marks[c], false);
            let l = s.first(c);
            let v = l.var_index();
            assert(l == s0.lits[c][k]);
            assert(l.var.num < s0.value.len());
            assert(k != p);
            assert(s0.lits[c].len() >= 2);
            assert(s.target(c, var) == v);
            lemma_count_pos(s.target_flags(v, var), true, c);
            assert(s.expected[v].1 >= 1);
            assert(s3.target(c, var) == -1);
            lemma_expected_move(s, s3, c, var);
            assert(expect_link(s3, s0)) by {
                assert forall|w: int| 0 <= w < s0.value.len() implies (s0.expected[w].1 > 0 ==> (
                #[trigger] s3.expected[w]).0 == s0.expected[w].0) && (s3.expected[w].1 == 0
                    ==> s3.expected[w].0 == VarValue::VUndef) by {
                    assert(s.expected[w].1 >= 0);
                    if w == v && s0.expected[w].1 > 0 && s.expected[v].1 == 1 {
                        let d = lemma_asker(s0, v, -1);
                        lemma_target_persists(
                            s3,
                            s0,
                            sl,
                            cur_c(list, i + 1, end),
                            cur_p(list, i + 1),
                            false,
                            d,
                        );
                        lemma_count_pos(s3.target_flags(v, var), true, d);
                        assert(s3.expected[v].1 == count_eq(s3.target_flags(v, var), true));
                    }
                }
            }
        } else {
            assert(s3.target(c, var) == s.target(c, var)) by {
                if s.live(c) == 0 {
                    lemma_count_zero(s.marks[c], false);
                    assert forall|q: int| 0 <= q < p implies s3.marks[c][q] != false by {
                        assert(s.marks[c][q]);
                    }
                    lemma_first_eq_is(s3.marks[c], false, p);
                }
            }
            lemma_expected_move(s, s3, c, var);
        }
    }
}

/// When the backward pass is through, the state is `s0` again.
pub proof fn lemma_undo_end(s: State, s0: State, sl: Lit, list: Seq<Occ>)
    requires
        pass_pre(s0, sl),
        undo_inv(
            s,
            s0,
            sl,
            cur_c(list, list.len() as int, s0.indexed as int),
            cur_p(list, list.len() as int),
        ),
    ensures
        s == s0,
{
    let var = sl.var_index();
    lemma_cursor_end(s0, list, sl.negated());
    assert forall|c: int| 0 <= c < s0.lits.len() implies s.marks[c] == s0.marks[c] by {
        assert(s.marks[c].len() == s0.lits[c].len());
        assert(s0.marks[c].len() == s0.lits[c].len());
        assert forall|p: int| 0 <= p < s0.lits[c].len() implies s.marks[c][p]
            == s0.marks[c][p] by {
            assert(s0.is_pos(c, p));
            assert(s.marks[c][p] == (s0.marks[c][p] || (fsat(s0, c, sl) == 0 && s0.lits[c][p]
                == sl.negated() && (before(
                c,
                p,
                cur_c(list, list.len() as int, s0.indexed as int),
                cur_p(list, list.len() as int),
            ) == false))));
        }
        assert(s.marks[c] =~= s0.marks[c]);
    }
    assert(s.marks =~= s0.marks);
    assert forall|v: int| 0 <= v < s0.value.len() implies s.expected[v] == s0.expected[v] by {
        assert forall|c: int| 0 <= c < s.lits.len() implies s.target_flags(v, var)[c]
            == s0.target_flags(v, -1)[c] by {
            assert(s0.live(c) >= 1);
        }
        assert(s.target_flags(v, var) =~= s0.target_flags(v, -1));
        assert(s.expected[v].1 == s0.expected[v].1);
        assert(s.expected[v].0 == s0.expected[v].0);
    }
    assert(s.expected =~= s0.expected);
}

/// A forward pass leaves no more clauses without a true literal than there
/// were.
pub proof fn lemma_forward_unsat(s1: State, s0: State, sl: Lit)
    requires
        pass_pre(s0, sl),
        forward_of(s1, s0, sl),
    ensures
        s1.unsat <= s0.unsat,
{
    let a = s1.zero_flags();
    let b = s0.zero_flags();
    assert forall|c: int| 0 <= c < a.len() && a[c] implies b[c] by {
        lemma_fsat(s1, s0, sl, c);
        lemma_fsat_zero(s0, sl, c);
    }
    crate::count::lemma_count_mono(a, b);
}

} // verus!
