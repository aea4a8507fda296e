//! What holds of a solver to which clauses were added after a search, and
//! what a forward pass keeps of it. Counters and marks then say nothing of
//! the literals that were true or false when their clause was added; what
//! stays is that no counter exceeds the number of true literals, that only
//! false literals are marked, and the counts that go by counters and marks.

use crate::count::{
    count_eq, first_eq, lemma_count_bound, lemma_count_one, lemma_count_update, lemma_count_zero,
    lemma_first_eq,
};
use crate::cursor::{cur_c, cur_p, lemma_cursor_end, lemma_cursor_start, lemma_cursor_step};
use crate::lit::{Lit, VarValue};
use crate::passes::{
    ask, fwd_clash, fwd_step, lemma_expected_move, mark_step, pass_flags, same_frame, sat_step,
};
use crate::fresh::with_value;
use crate::ingest::with_new_var;
use crate::loose::lemma_loose_new_var;
use crate::state::{before, Occ, State};
use vstd::prelude::*;

verus! {

/// No counter exceeds the number of true literals of its clause.
pub open spec fn sat_le(s: State) -> bool {
    forall|c: int|
        0 <= c < s.lits.len() ==> #[trigger] s.sat[c] <= count_eq(s.true_flags(c), true)
}

/// What holds of a state whose status is true, also where clauses were
/// added after a search: besides `loose_inv`, every clause is indexed and has
/// an unmarked literal, no counter exceeds the number of true literals, and
/// each expected count is the number of clauses that ask.
pub open spec fn slack_inv(s: State) -> bool {
    &&& s.loose_inv()
    &&& s.indexed == s.lits.len()
    &&& sat_le(s)
    &&& s.expected_ok(-1)
    &&& s.no_empty()
}

/// A state between two steps of a search is slack.
pub proof fn lemma_core_slack(s: State)
    requires
        s.core_inv(),
    ensures
        slack_inv(s),
{
}

/// What holds of the counters during a forward pass over the true side of
/// a slack state.
pub open spec fn sat_pass_weak(s: State, s0: State, l: Lit, cc: int, cp: int) -> bool {
    &&& same_frame(s, s0)
    &&& forall|c: int|
        0 <= c < s.lits.len() ==> #[trigger] s.sat[c] <= count_eq(
            pass_flags(s0, c, l, cc, cp, true),
            true,
        )
    &&& s.unsat_ok()
    &&& s.unsat <= s0.unsat
}

/// A forward pass over the true side of a slack state starts from its
/// counters.
pub proof fn lemma_sat_weak_start(s: State, s0: State, l: Lit, list: Seq<Occ>)
    requires
        s0.shape(),
        sat_le(s0),
        s0.unsat_ok(),
        s0.indexed == s0.lits.len(),
        s0.occ_list_ok(list, l),
        same_frame(s, s0),
        s.sat == s0.sat,
        s.unsat == s0.unsat,
    ensures
        sat_pass_weak(s, s0, l, cur_c(list, 0, s0.indexed as int), cur_p(list, 0)),
{
    lemma_cursor_start(s0, list, l);
    let cc = cur_c(list, 0, s0.indexed as int);
    let cp = cur_p(list, 0);
    assert forall|c: int| 0 <= c < s.lits.len() implies #[trigger] s.sat[c] <= count_eq(
        pass_flags(s0, c, l, cc, cp, true),
        true,
    ) by {
        assert forall|p: int| 0 <= p < s0.lits[c].len() implies pass_flags(s0, c, l, cc, cp, true)[p]
            == s0.true_flags(c)[p] by {
            if s0.lits[c][p] == l {
                assert(s0.is_pos(c, p));
            }
        }
        assert(pass_flags(s0, c, l, cc, cp, true) =~= s0.true_flags(c));
        assert(s0.sat[c] <= count_eq(s0.true_flags(c), true));
    }
    assert(s.zero_flags() =~= s0.zero_flags());
}

/// One step of a forward pass over the true side of a slack state keeps
/// `sat_pass_weak`, and the counters that it changes stay in range.
pub proof fn lemma_sat_weak_step(s: State, s0: State, l: Lit, list: Seq<Occ>, i: int)
    requires
        s0.shape(),
        s0.indexed == s0.lits.len(),
        s0.occ_list_ok(list, l),
        !s0.lit_true(l),
        0 <= i < list.len(),
        sat_pass_weak(s, s0, l, cur_c(list, i, s0.indexed as int), cur_p(list, i)),
    ensures
        0 <= list[i].0 < s.sat.len(),
        s.sat[list[i].0 as int] < usize::MAX,
        s.sat[list[i].0 as int] == 0 ==> s.unsat >= 1,
        sat_pass_weak(
            sat_step(s, list[i].0 as int, true),
            s0,
            l,
            cur_c(list, i + 1, s0.indexed as int),
            cur_p(list, i + 1),
        ),
{
    let end = s0.indexed as int;
    let c = list[i].0 as int;
    let p = list[i].1 as int;
    let cc = cur_c(list, i, end);
    let cp = cur_p(list, i);
    let dc = cur_c(list, i + 1, end);
    let dp = cur_p(list, i + 1);
    let s2 = sat_step(s, c, true);
    lemma_cursor_step(s0, list, l, i);
    let f = pass_flags(s0, c, l, cc, cp, true);
    let g = pass_flags(s0, c, l, dc, dp, true);
    assert(g =~= f.update(p, true)) by {
        assert forall|q: int| 0 <= q < s0.lits[c].len() implies g[q] == f.update(p, true)[q] by {
            if s0.lits[c][q] == l {
                assert(s0.is_pos(c, q));
            }
        }
    }
    assert(f[p] == false);
    lemma_count_update(f, p, true, true);
    lemma_count_bound(g, true);
    assert(s0.marks[c].len() == s0.lits[c].len());
    assert(s.sat[c] <= count_eq(f, true));
    assert forall|d: int| 0 <= d < s2.lits.len() implies #[trigger] s2.sat[d] <= count_eq(
        pass_flags(s0, d, l, dc, dp, true),
        true,
    ) by {
        if d != c {
            assert forall|q: int| 0 <= q < s0.lits[d].len() implies pass_flags(
                s0,
                d,
                l,
                dc,
                dp,
                true,
            )[q] == pass_flags(s0, d, l, cc, cp, true)[q] by {
                if s0.lits[d][q] == l {
                    assert(s0.is_pos(d, q));
                }
            }
            assert(pass_flags(s0, d, l, dc, dp, true) =~= pass_flags(s0, d, l, cc, cp, true));
            assert(s.sat[d] <= count_eq(pass_flags(s0, d, l, cc, cp, true), true));
        }
    }
    let z = s.zero_flags();
    let z2 = s2.zero_flags();
    assert(z2 =~= z.update(c, false));
    lemma_count_update(z, c, false, true);
    lemma_count_bound(z, true);
}

/// When a forward pass over the true side of a slack state is through, no
/// counter exceeds the number of true literals.
pub proof fn lemma_sat_weak_end(s: State, s0: State, l: Lit, list: Seq<Occ>)
    requires
        s0.shape(),
        s0.indexed == s0.lits.len(),
        0 <= l.var_index() < s0.value.len(),
        !s0.propagated[l.var_index()],
        s0.value[l.var_index()] == l.polarity(),
        sat_pass_weak(
            s,
            s0,
            l,
            cur_c(list, list.len() as int, s0.indexed as int),
            cur_p(list, list.len() as int),
        ),
        s.propagated == s0.propagated.update(l.var_index(), true),
    ensures
        sat_le(s),
{
    let cc = cur_c(list, list.len() as int, s0.indexed as int);
    let cp = cur_p(list, list.len() as int);
    lemma_cursor_end(s0, list, l);
    assert forall|c: int| 0 <= c < s.lits.len() implies #[trigger] s.sat[c] <= count_eq(
        s.true_flags(c),
        true,
    ) by {
        assert forall|p: int| 0 <= p < s0.lits[c].len() implies pass_flags(s0, c, l, cc, cp, true)[p]
            == s.true_flags(c)[p] by {
            assert(s0.is_pos(c, p));
            let m = s0.lits[c][p];
            assert(m.var.num < s0.value.len());
            if m.var_index() == l.var_index() {
                if m.positive == l.positive {
                    assert(m == l);
                }
            }
        }
        assert(pass_flags(s0, c, l, cc, cp, true) =~= s.true_flags(c));
        assert(s.sat[c] <= count_eq(pass_flags(s0, c, l, cc, cp, true), true));
    }
}

/// What holds of marks and expected counts during a forward pass over the
/// false side of a slack state: only false literals are marked, the
/// positions that the pass has not reached are unmarked, the expected counts
/// go by the clauses that ask, and no clause is emptied unless a conflict
/// was met.
pub open spec fn fwd_weak(s: State, s0: State, ul: Lit, list: Seq<Occ>, i: int, result: bool) -> bool {
    &&& same_frame(s, s0)
    &&& s.shape()
    &&& s.marks_weak()
    &&& s.lit_false(ul)
    &&& s.expected_ok(ul.var_index())
    &&& !result ==> s.no_empty()
    &&& forall|j: int|
        i <= j < list.len() ==> !s.marks[(#[trigger] list[j]).0 as int][list[j].1 as int]
}

/// One step of a forward pass over the false side of a slack state keeps
/// `fwd_weak`, and the counters that it changes stay in range.
pub proof fn lemma_fwd_weak_step(s: State, s0: State, ul: Lit, list: Seq<Occ>, i: int, result: bool)
    requires
        s0.shape(),
        s0.indexed == s0.lits.len(),
        s0.occ_list_ok(list, ul),
        0 <= ul.var_index() < s0.value.len(),
        0 <= i < list.len(),
        fwd_weak(s, s0, ul, list, i, result),
    ensures
        0 <= list[i].0 < s0.lits.len(),
        0 <= list[i].1 < s0.lits[list[i].0 as int].len(),
        !s.marks[list[i].0 as int][list[i].1 as int],
        s.sat[list[i].0 as int] == 0 && mark_step(
            s,
            list[i].0 as int,
            list[i].1 as int,
            true,
        ).live(list[i].0 as int) == 1 ==> ({
            let l = mark_step(s, list[i].0 as int, list[i].1 as int, true).first(list[i].0 as int);
            0 <= l.var_index() < s0.value.len() && s.expected[l.var_index()].1 < usize::MAX
        }),
        fwd_weak(
            fwd_step(s, list[i].0 as int, list[i].1 as int),
            s0,
            ul,
            list,
            i + 1,
            result || fwd_clash(s, list[i].0 as int, list[i].1 as int),
        ),
{
    let c = list[i].0 as int;
    let p = list[i].1 as int;
    let var = ul.var_index();
    lemma_cursor_step(s0, list, ul, i);
    assert(s0.is_pos(c, p));
    assert(s.marks[c].len() == s.lits[c].len());
    assert forall|j: int| i + 1 <= j < list.len() implies !((#[trigger] list[j]).0 == list[i].0
        && list[j].1 == list[i].1) by {
        assert(before(list[i].0 as int, list[i].1 as int, list[j].0 as int, list[j].1 as int));
    }
    if s.sat[c] != 0 {
    } else {
        let s2 = mark_step(s, c, p, true);
        lemma_count_update(s.marks[c], p, true, false);
        lemma_count_bound(s.marks[c], false);
        assert(s2.shape()) by {
            assert forall|d: int| 0 <= d < s2.lits.len() implies (#[trigger] s2.marks[d]).len()
                == s2.lits[d].len() && s2.lits[d].len() <= usize::MAX by {
                assert(s.marks[d].len() == s.lits[d].len());
            }
        }
        assert(s2.marks_weak()) by {
            assert forall|d: int, q: int|
                0 <= d < s2.lits.len() && 0 <= q < s2.lits[d].len()
                    && #[trigger] s2.marks[d][q] implies s2.lit_false(s2.lits[d][q]) by {
                if d == c && q == p {
                } else {
                    assert(s.marks[d][q]);
                }
            }
        }
        assert forall|j: int| i + 1 <= j < list.len() implies !s2.marks[(
        #[trigger] list[j]).0 as int][list[j].1 as int] by {
            assert(!s.marks[list[j].0 as int][list[j].1 as int]);
        }
        if s2.live(c) == 1 {
            lemma_first_eq(s2.marks[c], false);
            let k = first_eq(s2.marks[c], false);
            let l = s2.first(c);
            let v = l.var_index();
            assert(l == s0.lits[c][k]);
            assert(l.var.num < s0.value.len());
            let s3 = ask(s2, c);
            assert(s0.lits[c].len() >= 2);
            assert(s.target(c, var) == -1);
            assert(s3.marks == s2.marks);
            assert(s3.target(c, var) == v);
            let f = s.target_flags(v, var);
            let g = s3.target_flags(v, var);
            assert(g =~= f.update(c, true)) by {
                assert forall|d: int| 0 <= d < s.lits.len() implies g[d] == f.update(c, true)[d] by {
                    if d != c {
                        assert(s3.marks[d] == s.marks[d]);
                    }
                }
            }
            lemma_count_update(f, c, true, true);
            lemma_count_bound(g, true);
            assert(s.expected[v].1 == count_eq(f, true));
            lemma_expected_move(s, s3, c, var);
            assert(s3.shape()) by {
                assert forall|d: int| 0 <= d < s3.lits.len() implies (#[trigger] s3.marks[d]).len()
                    == s3.lits[d].len() && s3.lits[d].len() <= usize::MAX by {
                    assert(s2.marks[d].len() == s2.lits[d].len());
                }
            }
            assert(s3.marks_weak()) by {
                assert forall|d: int, q: int|
                    0 <= d < s3.lits.len() && 0 <= q < s3.lits[d].len()
                        && #[trigger] s3.marks[d][q] implies s3.lit_false(s3.lits[d][q]) by {
                    assert(s2.marks[d][q]);
                    assert(s2.lit_false(s2.lits[d][q]));
                }
            }
            if !(result || fwd_clash(s, c, p)) {
                assert forall|d: int| 0 <= d < s3.lits.len() implies #[trigger] s3.live(d) >= 1 by {
                    if d != c {
                        assert(s3.marks[d] == s.marks[d]);
                        assert(s.live(d) >= 1);
                    }
                }
            }
        } else {
            if s2.live(c) == 0 {
                lemma_first_eq(s.marks[c], false);
                lemma_count_one(s.marks[c], false, first_eq(s.marks[c], false));
                assert(first_eq(s.marks[c], false) == p);
                assert(s.first(c) == ul);
            }
            assert(s.target(c, var) == s2.target(c, var));
            lemma_expected_move(s, s2, c, var);
            if !(result || s2.live(c) == 0) {
                assert forall|d: int| 0 <= d < s2.lits.len() implies #[trigger] s2.live(d) >= 1 by {
                    if d != c {
                        assert(s2.marks[d] == s.marks[d]);
                        assert(s.live(d) >= 1);
                    }
                }
            }
        }
    }
}

/// A forward pass over the false side of a slack state starts with `fwd_weak`.
pub proof fn lemma_fwd_weak_start(s: State, s0: State, ul: Lit, list: Seq<Occ>)
    requires
        slack_inv(s0),
        s0.occ_list_ok(list, ul),
        0 <= ul.var_index() < s0.value.len(),
        !s0.propagated[ul.var_index()],
        s0.value[ul.var_index()] == ul.negated().polarity(),
        same_frame(s, s0),
        s.marks == s0.marks,
        s.expected == s0.expected,
        s.propagated == s0.propagated.update(ul.var_index(), true),
    ensures
        fwd_weak(s, s0, ul, list, 0, false),
{
    let var = ul.var_index();
    assert(s.shape()) by {
        assert forall|d: int| 0 <= d < s.lits.len() implies (#[trigger] s.marks[d]).len()
            == s.lits[d].len() && s.lits[d].len() <= usize::MAX by {
            assert(s0.marks[d].len() == s0.lits[d].len());
        }
    }
    assert(s.marks_weak()) by {
        assert forall|c: int, p: int|
            0 <= c < s.lits.len() && 0 <= p < s.lits[c].len() && #[trigger] s.marks[c][p] implies s.lit_false(
            s.lits[c][p],
        ) by {
            assert(s0.marks[c][p]);
            assert(s0.lit_false(s0.lits[c][p]));
            assert(s0.lits[c][p].var.num < s0.value.len());
        }
    }
    assert(s.expected_ok(var)) by {
        assert forall|v: int| 0 <= v < s.value.len() implies (#[trigger] s.expected[v]).1
            == count_eq(s.target_flags(v, var), true) by {
            assert forall|c: int| 0 <= c < s.lits.len() implies s.target_flags(v, var)[c]
                == s0.target_flags(v, -1)[c] by {
                assert(s0.live(c) >= 1);
            }
            assert(s.target_flags(v, var) =~= s0.target_flags(v, -1));
        }
    }
    assert(s.no_empty()) by {
        assert forall|c: int| 0 <= c < s.lits.len() implies #[trigger] s.live(c) >= 1 by {
            assert(s0.live(c) >= 1);
        }
    }
    assert forall|j: int| 0 <= j < list.len() implies !s.marks[(#[trigger] list[j]).0 as int][list[j].1 as int] by {
        let c = list[j].0 as int;
        let p = list[j].1 as int;
        assert(s0.is_pos(c, p));
        if s0.marks[c][p] {
            assert(s0.lit_false(s0.lits[c][p]));
        }
    }
}

/// When a forward pass over a slack state is through, the invariants of
/// every state hold, and without a conflict the state is slack again.
pub proof fn lemma_fwd_weak_end(s: State, s0: State, ul: Lit, list: Seq<Occ>, result: bool)
    requires
        slack_inv(s0),
        0 <= ul.var_index() < s0.value.len(),
        fwd_weak(s, s0, ul, list, list.len() as int, result),
        s.unsat_ok(),
        sat_le(s),
        s.propagated == s0.propagated.update(ul.var_index(), true),
        s0.value[ul.var_index()] != VarValue::VUndef,
    ensures
        s.loose_inv(),
        !result ==> slack_inv(s),
{
    let var = ul.var_index();
    assert(s.bound_ok()) by {
        assert forall|v: int| 0 <= v < s.value.len() && #[trigger] s.propagated[v] implies s.value[v]
            != VarValue::VUndef by {
            if v != var {
                assert(s0.propagated[v]);
            }
        }
    }
    assert(s.map_ok()) by {
        assert forall|v: int| 0 <= v < s.value.len() implies #[trigger] s.var_map_ok(v) by {
            assert(s0.var_map_ok(v));
        }
    }
    if !result {
        assert(s.expected_ok(-1)) by {
            assert forall|v: int| 0 <= v < s.value.len() implies (#[trigger] s.expected[v]).1
                == count_eq(s.target_flags(v, -1), true) by {
                assert forall|c: int| 0 <= c < s.lits.len() implies s.target_flags(v, var)[c]
                    == s.target_flags(v, -1)[c] by {
                    assert(s.live(c) >= 1);
                }
                assert(s.target_flags(v, var) =~= s.target_flags(v, -1));
            }
        }
    }
}

/// A new variable keeps a slack state slack.
pub proof fn lemma_slack_new_var(s: State)
    requires
        slack_inv(s),
        s.value.len() < usize::MAX,
    ensures
        slack_inv(with_new_var(s)),
{
    let t = with_new_var(s);
    let n = s.value.len() as int;
    lemma_loose_new_var(s);
    assert forall|c: int| 0 <= c < t.lits.len() implies #[trigger] t.sat[c] <= count_eq(
        t.true_flags(c),
        true,
    ) by {
        assert forall|p: int| 0 <= p < s.lits[c].len() implies t.true_flags(c)[p] == s.true_flags(
            c,
        )[p] by {
            assert(s.lits[c][p].var.num < s.value.len());
        }
        assert(t.true_flags(c) =~= s.true_flags(c));
        assert(s.sat[c] <= count_eq(s.true_flags(c), true));
    }
    assert(t.expected_ok(-1)) by {
        assert forall|w: int| 0 <= w < t.value.len() implies (#[trigger] t.expected[w]).1
            == count_eq(t.target_flags(w, -1), true) by {
            assert(t.target_flags(w, -1) =~= s.target_flags(w, -1));
            if w < n {
                assert(s.expected[w].1 == count_eq(s.target_flags(w, -1), true));
            } else {
                let f = s.target_flags(w, -1);
                assert forall|c: int| 0 <= c < f.len() implies f[c] != true by {
                    assert(s.live(c) >= 1);
                    if s.lits[c].len() >= 2 && s.live(c) == 1 {
                        lemma_first_eq(s.marks[c], false);
                        assert(s.marks[c].len() == s.lits[c].len());
                        assert(s.first(c).var.num < s.value.len());
                    }
                }
                lemma_count_zero(f, true);
            }
        }
    }
    assert(t.no_empty()) by {
        assert forall|c: int| 0 <= c < t.lits.len() implies #[trigger] t.live(c) >= 1 by {
            assert(s.live(c) >= 1);
        }
    }
}

/// A value for a variable that is not propagated keeps a slack state slack.
pub proof fn lemma_slack_set_value(s: State, v: int, x: VarValue)
    requires
        slack_inv(s),
        0 <= v < s.value.len(),
        !s.propagated[v],
    ensures
        slack_inv(with_value(s, v, x)),
{
    let t = with_value(s, v, x);
    assert(t.zero_flags() =~= s.zero_flags());
    assert(t.marks_weak()) by {
        assert forall|c: int, p: int|
            0 <= c < t.lits.len() && 0 <= p < t.lits[c].len()
                && #[trigger] t.marks[c][p] implies t.lit_false(t.lits[c][p]) by {
            assert(s.marks[c][p]);
            assert(s.lits[c][p].var.num < s.value.len());
        }
    }
    assert(t.map_ok()) by {
        assert forall|w: int| 0 <= w < t.value.len() implies #[trigger] t.var_map_ok(w) by {
            assert(s.var_map_ok(w));
        }
    }
    assert(t.bound_ok()) by {
        assert forall|w: int| 0 <= w < t.value.len() && #[trigger] t.propagated[w] implies t.value[w]
            != VarValue::VUndef by {
            assert(s.propagated[w]);
        }
    }
    assert forall|c: int| 0 <= c < t.lits.len() implies #[trigger] t.sat[c] <= count_eq(
        t.true_flags(c),
        true,
    ) by {
        assert forall|p: int| 0 <= p < s.lits[c].len() implies t.true_flags(c)[p] == s.true_flags(
            c,
        )[p] by {
            assert(s.lits[c][p].var.num < s.value.len());
        }
        assert(t.true_flags(c) =~= s.true_flags(c));
        assert(s.sat[c] <= count_eq(s.true_flags(c), true));
    }
    assert(t.expected_ok(-1)) by {
        assert forall|w: int| 0 <= w < t.value.len() implies (#[trigger] t.expected[w]).1
            == count_eq(t.target_flags(w, -1), true) by {
            assert(t.target_flags(w, -1) =~= s.target_flags(w, -1));
            assert(s.expected[w].1 == count_eq(s.target_flags(w, -1), true));
        }
    }
    assert(t.no_empty()) by {
        assert forall|c: int| 0 <= c < t.lits.len() implies #[trigger] t.live(c) >= 1 by {
            assert(s.live(c) >= 1);
        }
    }
}

/// Recording and indexing a clause with a literal keeps a slack state
/// slack.
pub proof fn lemma_slack_recorded(s: State, t: State, cl: Seq<Lit>)
    requires
        slack_inv(s),
        t.loose_inv(),
        cl.len() > 0,
        t.lits == s.lits.push(cl),
        t.marks == s.marks.push(Seq::new(cl.len(), |p: int| false)),
        t.sat == s.sat.push(0usize),
        t.value == s.value,
        t.propagated == s.propagated,
        t.expected == s.expected,
        t.indexed == s.indexed + 1,
    ensures
        slack_inv(t),
{
    let n = s.lits.len() as int;
    assert forall|c: int| 0 <= c < t.lits.len() implies #[trigger] t.sat[c] <= count_eq(
        t.true_flags(c),
        true,
    ) by {
        if c < n {
            assert(t.true_flags(c) =~= s.true_flags(c));
            assert(s.sat[c] <= count_eq(s.true_flags(c), true));
        }
    }
    assert(t.marks[n] == Seq::new(cl.len(), |p: int| false));
    crate::count::lemma_count_full(t.marks[n], false);
    assert(t.live(n) == cl.len());
    assert(t.expected_ok(-1)) by {
        assert forall|w: int| 0 <= w < t.value.len() implies (#[trigger] t.expected[w]).1
            == count_eq(t.target_flags(w, -1), true) by {
            let f = s.target_flags(w, -1);
            let g = t.target_flags(w, -1);
            assert forall|c: int| 0 <= c < g.len() implies g[c] == f.push(false)[c] by {
                if c < n {
                    assert(t.marks[c] == s.marks[c]);
                }
            }
            assert(g =~= f.push(false));
            crate::count::lemma_count_push(f, false, true);
            assert(s.expected[w].1 == count_eq(f, true));
        }
    }
    assert(t.no_empty()) by {
        assert forall|c: int| 0 <= c < t.lits.len() implies #[trigger] t.live(c) >= 1 by {
            if c < n {
                assert(t.marks[c] == s.marks[c]);
                assert(s.live(c) >= 1);
            }
        }
    }
}

} // verus!
