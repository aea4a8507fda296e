//! How the occurrence lists grow when a clause is recorded, and what a new
//! variable and a new clause leave as it was.

use crate::count::count_eq;
use crate::formula::{Assignment, extends, models};
use crate::lit::{Lit, VarValue};
use crate::state::{before, listed, lit_of, Occ, size_of, State, unit_values};
use vstd::prelude::*;

verus! {

/// `list` holds the positions of literal `l` that lie before `(ic, ip)`: all
/// of them, each once, in increasing order.
pub open spec fn occ_upto(lits: Seq<Seq<Lit>>, list: Seq<Occ>, l: Lit, ic: int, ip: int) -> bool {
    &&& forall|j: int|
        0 <= j < list.len() ==> 0 <= (#[trigger] list[j]).0 < lits.len() && 0 <= list[j].1
            < lits[list[j].0 as int].len() && before(list[j].0 as int, list[j].1 as int, ic, ip)
            && lits[list[j].0 as int][list[j].1 as int] == l
    &&& forall|j: int, k: int|
        0 <= j < k < list.len() ==> before(
            (#[trigger] list[j]).0 as int,
            list[j].1 as int,
            (#[trigger] list[k]).0 as int,
            list[k].1 as int,
        )
    &&& forall|c: int, p: int|
        0 <= c < lits.len() && 0 <= p < lits[c].len() && before(c, p, ic, ip)
            && #[trigger] lits[c][p] == l ==> listed(list, c, p)
}

/// The occurrence lists and counts of the first `n` variables are right for
/// the positions before `(ic, ip)`, and no count exceeds `bound`.
pub open spec fn map_upto(
    lits: Seq<Seq<Lit>>,
    pos: Seq<Seq<Occ>>,
    neg: Seq<Seq<Occ>>,
    cnt: Seq<usize>,
    ic: int,
    ip: int,
    bound: nat,
) -> bool {
    &&& neg.len() == pos.len()
    &&& cnt.len() == pos.len()
    &&& forall|v: int|
        0 <= v < pos.len() ==> occ_upto(lits, #[trigger] pos[v], lit_of(v, true), ic, ip)
    &&& forall|v: int|
        0 <= v < pos.len() ==> occ_upto(lits, #[trigger] neg[v], lit_of(v, false), ic, ip)
    &&& forall|v: int|
        0 <= v < pos.len() ==> (#[trigger] cnt[v]) == pos[v].len() + neg[v].len() && cnt[v]
            <= bound
}

/// The lists of a state are right up to its first clause that is not indexed.
pub proof fn lemma_map_of_state(s: State)
    requires
        s.shape(),
        s.map_ok(),
    ensures
        map_upto(
            s.lits,
            s.pos,
            s.neg,
            s.cnt,
            s.indexed as int,
            0,
            size_of(s.lits, s.indexed),
        ),
{
    assert forall|v: int| 0 <= v < s.pos.len() implies occ_upto(
        s.lits,
        #[trigger] s.pos[v],
        lit_of(v, true),
        s.indexed as int,
        0,
    ) by {
        assert(s.var_map_ok(v));
        let list = s.pos[v];
        assert forall|c: int, p: int|
            0 <= c < s.lits.len() && 0 <= p < s.lits[c].len() && before(c, p, s.indexed as int, 0)
                && #[trigger] s.lits[c][p] == lit_of(v, true) implies listed(list, c, p) by {
            assert(s.is_pos(c, p));
        }
    }
    assert forall|v: int| 0 <= v < s.pos.len() implies occ_upto(
        s.lits,
        #[trigger] s.neg[v],
        lit_of(v, false),
        s.indexed as int,
        0,
    ) by {
        assert(s.var_map_ok(v));
        let list = s.neg[v];
        assert forall|c: int, p: int|
            0 <= c < s.lits.len() && 0 <= p < s.lits[c].len() && before(c, p, s.indexed as int, 0)
                && #[trigger] s.lits[c][p] == lit_of(v, false) implies listed(list, c, p) by {
            assert(s.is_pos(c, p));
        }
    }
    assert forall|v: int| 0 <= v < s.pos.len() implies (#[trigger] s.cnt[v]) == s.pos[v].len()
        + s.neg[v].len() && s.cnt[v] <= size_of(s.lits, s.indexed) by {
        assert(s.var_map_ok(v));
    }
}

/// Lists that are right up to the first clause that is not indexed are the
/// lists of the state.
pub proof fn lemma_state_of_map(s: State)
    requires
        s.shape(),
        map_upto(
            s.lits,
            s.pos,
            s.neg,
            s.cnt,
            s.indexed as int,
            0,
            size_of(s.lits, s.indexed),
        ),
    ensures
        s.map_ok(),
{
    assert forall|v: int| 0 <= v < s.value.len() implies #[trigger] s.var_map_ok(v) by {
        assert(occ_upto(s.lits, s.pos[v], lit_of(v, true), s.indexed as int, 0));
        assert(occ_upto(s.lits, s.neg[v], lit_of(v, false), s.indexed as int, 0));
        assert(s.cnt[v] == s.pos[v].len() + s.neg[v].len());
    }
}

/// The two formulas have the same positions before `(ic, ip)`, with the same
/// literals.
pub open spec fn same_before(lits: Seq<Seq<Lit>>, lits2: Seq<Seq<Lit>>, ic: int, ip: int) -> bool {
    &&& forall|c: int, p: int|
        0 <= c < lits2.len() && 0 <= p < lits2[c].len() && #[trigger] before(c, p, ic, ip) ==> c
            < lits.len() && p < lits[c].len() && lits[c][p] == lits2[c][p]
    &&& forall|c: int, p: int|
        0 <= c < lits.len() && 0 <= p < lits[c].len() && #[trigger] before(c, p, ic, ip) ==> c
            < lits2.len() && p < lits2[c].len()
}

/// The positions before `(ic, ip)` do not depend on clauses from `ic + 1` on,
/// nor on the literals of clause `ic` from position `ip` on.
pub proof fn lemma_occ_frame(
    lits: Seq<Seq<Lit>>,
    lits2: Seq<Seq<Lit>>,
    list: Seq<Occ>,
    l: Lit,
    ic: int,
    ip: int,
)
    requires
        occ_upto(lits, list, l, ic, ip),
        same_before(lits, lits2, ic, ip),
    ensures
        occ_upto(lits2, list, l, ic, ip),
{
    assert forall|j: int| 0 <= j < list.len() implies 0 <= (#[trigger] list[j]).0 < lits2.len() && 0
        <= list[j].1 < lits2[list[j].0 as int].len() && before(
        list[j].0 as int,
        list[j].1 as int,
        ic,
        ip,
    ) && lits2[list[j].0 as int][list[j].1 as int] == l by {
        let c = list[j].0 as int;
        let p = list[j].1 as int;
        assert(lits[c][p] == l);
        assert(lits2[c][p] == lits[c][p]);
    }
    assert forall|c: int, p: int|
        0 <= c < lits2.len() && 0 <= p < lits2[c].len() && before(c, p, ic, ip)
            && #[trigger] lits2[c][p] == l implies listed(list, c, p) by {
        assert(lits[c][p] == l);
    }
}

/// A list that is right up to position `(ic, ip)` is right up to the next
/// position once it has got that position as an entry, where the literal
/// there is `l`; and as it is, where the literal is another.
pub proof fn lemma_occ_step(lits: Seq<Seq<Lit>>, list: Seq<Occ>, l: Lit, ic: int, ip: int)
    requires
        occ_upto(lits, list, l, ic, ip),
        0 <= ic < lits.len(),
        0 <= ip < lits[ic].len(),
        ic <= usize::MAX,
        ip <= usize::MAX,
    ensures
        lits[ic][ip] == l ==> occ_upto(lits, list.push((ic as usize, ip as usize)), l, ic, ip + 1),
        lits[ic][ip] != l ==> occ_upto(lits, list, l, ic, ip + 1),
{
    if lits[ic][ip] == l {
        let e = (ic as usize, ip as usize);
        let list2 = list.push(e);
        assert forall|j: int| 0 <= j < list2.len() implies 0 <= (#[trigger] list2[j]).0 < lits.len()
            && 0 <= list2[j].1 < lits[list2[j].0 as int].len() && before(
            list2[j].0 as int,
            list2[j].1 as int,
            ic,
            ip + 1,
        ) && lits[list2[j].0 as int][list2[j].1 as int] == l by {
            if j < list.len() {
                assert(list2[j] == list[j]);
            }
        }
        assert forall|j: int, k: int| 0 <= j < k < list2.len() implies before(
            (#[trigger] list2[j]).0 as int,
            list2[j].1 as int,
            (#[trigger] list2[k]).0 as int,
            list2[k].1 as int,
        ) by {
            assert(list2[j] == list[j]);
            if k < list.len() {
                assert(list2[k] == list[k]);
            }
        }
        assert forall|c: int, p: int|
            0 <= c < lits.len() && 0 <= p < lits[c].len() && before(c, p, ic, ip + 1)
                && #[trigger] lits[c][p] == l implies listed(list2, c, p) by {
            if c == ic && p == ip {
                assert(list2[list.len() as int].0 as int == c);
            } else {
                assert(listed(list, c, p));
                let j = choose|j: int|
                    0 <= j < list.len() && (#[trigger] list[j]).0 as int == c && list[j].1 as int
                        == p;
                assert(list2[j] == list[j]);
            }
        }
    } else {
        assert forall|c: int, p: int|
            0 <= c < lits.len() && 0 <= p < lits[c].len() && before(c, p, ic, ip + 1)
                && #[trigger] lits[c][p] == l implies listed(list, c, p) by {
            assert(before(c, p, ic, ip));
        }
    }
}

/// A list that is right up to the end of clause `ic` is right up to the
/// start of the next clause.
pub proof fn lemma_occ_next(lits: Seq<Seq<Lit>>, list: Seq<Occ>, l: Lit, ic: int)
    requires
        0 <= ic < lits.len(),
        occ_upto(lits, list, l, ic, lits[ic].len() as int),
    ensures
        occ_upto(lits, list, l, ic + 1, 0),
{
    assert forall|c: int, p: int|
        0 <= c < lits.len() && 0 <= p < lits[c].len() && before(c, p, ic + 1, 0)
            && #[trigger] lits[c][p] == l implies listed(list, c, p) by {
        assert(before(c, p, ic, lits[ic].len() as int));
    }
}

/// Recording one clause more, without a change of the first `k` clauses,
/// leaves the number of their literals as it was.
pub proof fn lemma_size_frame(lits: Seq<Seq<Lit>>, lits2: Seq<Seq<Lit>>, k: nat)
    requires
        k <= lits.len(),
        k <= lits2.len(),
        forall|c: int| 0 <= c < k ==> lits[c] == lits2[c],
    ensures
        size_of(lits, k) == size_of(lits2, k),
    decreases k,
{
    if k > 0 {
        lemma_size_frame(lits, lits2, (k - 1) as nat);
    }
}

/// The state with one variable more: without a value, not propagated, and
/// without an occurrence.
pub open spec fn with_new_var(s: State) -> State {
    State {
        value: s.value.push(VarValue::VUndef),
        propagated: s.propagated.push(false),
        expected: s.expected.push((VarValue::VUndef, 0usize)),
        pos: s.pos.push(Seq::<Occ>::empty()),
        neg: s.neg.push(Seq::<Occ>::empty()),
        cnt: s.cnt.push(0usize),
        ..s
    }
}

/// With one variable more, `unit_values` has one undecided entry more.
pub proof fn lemma_unit_values_new_var(lits: Seq<Seq<Lit>>, k: nat, n: nat)
    requires
        k <= lits.len(),
        forall|c: int, p: int|
            0 <= c < lits.len() && 0 <= p < lits[c].len() ==> (#[trigger] lits[c][p]).var.num < n,
    ensures
        unit_values(lits, k, n + 1) == unit_values(lits, k, n).push(VarValue::VUndef),
    decreases k,
{
    crate::fresh::lemma_unit_values(lits, k, n);
    crate::fresh::lemma_unit_values(lits, k, n + 1);
    if k == 0 {
        assert(unit_values(lits, k, n + 1) =~= unit_values(lits, k, n).push(VarValue::VUndef));
    } else {
        lemma_unit_values_new_var(lits, (k - 1) as nat, n);
        crate::fresh::lemma_unit_values(lits, (k - 1) as nat, n);
        let cl = lits[k - 1];
        if cl.len() == 1 {
            assert(cl[0].var.num < n);
        }
        assert(unit_values(lits, k, n + 1) =~= unit_values(lits, k, n).push(VarValue::VUndef));
    }
}

/// A new variable keeps every invariant.
pub proof fn lemma_new_var(s: State)
    requires
        s.shape(),
        s.value.len() < usize::MAX,
    ensures
        with_new_var(s).shape(),
        with_new_var(s).assigned() == s.assigned().push(VarValue::VUndef),
        s.base_inv() ==> with_new_var(s).base_inv(),
        s.core_inv() ==> with_new_var(s).core_inv(),
        s.blank() ==> with_new_var(s).blank(),
        s.grounded() ==> with_new_var(s).grounded(),
        s.settled() ==> with_new_var(s).settled(),
        s.all_nonempty() ==> with_new_var(s).all_nonempty(),
        s.value == unit_values(s.lits, s.lits.len(), s.value.len()) ==> with_new_var(s).value
            == unit_values(s.lits, s.lits.len(), s.value.len() + 1),
{
    let t = with_new_var(s);
    let n = s.value.len() as int;
    assert(t.assigned() =~= s.assigned().push(VarValue::VUndef));
    assert forall|c: int| 0 <= c < s.lits.len() implies #[trigger] t.true_flags(c)
        == s.true_flags(c) by {
        assert forall|p: int| 0 <= p < s.lits[c].len() implies t.true_flags(c)[p] == s.true_flags(
            c,
        )[p] by {
            assert(s.lits[c][p].var.num < s.value.len());
        }
        assert(t.true_flags(c) =~= s.true_flags(c));
    }
    assert(t.zero_flags() =~= s.zero_flags());
    if s.base_inv() {
        assert(t.sat_ok()) by {
            assert forall|c: int| 0 <= c < t.lits.len() implies #[trigger] t.sat[c] == count_eq(
                t.true_flags(c),
                true,
            ) by {
                assert(s.sat[c] == count_eq(s.true_flags(c), true));
                assert(t.true_flags(c) == s.true_flags(c));
            }
        }
        assert(t.marks_weak()) by {
            assert forall|c: int, p: int|
                0 <= c < t.lits.len() && 0 <= p < t.lits[c].len()
                    && #[trigger] t.marks[c][p] implies t.lit_false(t.lits[c][p]) by {
                assert(s.marks[c][p]);
                assert(s.lits[c][p].var.num < s.value.len());
            }
        }
        assert(t.map_ok()) by {
            assert forall|w: int| 0 <= w < t.value.len() implies #[trigger] t.var_map_ok(w) by {
                if w < n {
                    assert(s.var_map_ok(w));
                } else {
                    assert forall|c: int, p: int|
                        t.is_pos(c, p) implies (#[trigger] t.lits[c][p]).var.num != w by {
                        assert(s.lits[c][p].var.num < s.value.len());
                    }
                }
            }
        }
        assert(t.bound_ok()) by {
            assert forall|w: int| 0 <= w < t.value.len() && #[trigger] t.propagated[w] implies t.value[w]
                != VarValue::VUndef by {
                assert(s.propagated[w]);
            }
        }
    }
    if s.core_inv() {
        assert(t.marks_exact()) by {
            assert forall|c: int, p: int|
                0 <= c < t.lits.len() && 0 <= p < t.lits[c].len() && t.sat[c] == 0 && t.lit_false(
                    t.lits[c][p],
                ) implies #[trigger] t.marks[c][p] by {
                assert(s.lits[c][p].var.num < s.value.len());
                assert(s.lit_false(s.lits[c][p]));
                assert(s.marks[c][p]);
            }
        }
        assert(t.expected_ok(-1)) by {
            assert forall|w: int| 0 <= w < t.value.len() implies (#[trigger] t.expected[w]).1
                == count_eq(t.target_flags(w, -1), true) by {
                assert(t.target_flags(w, -1) =~= s.target_flags(w, -1));
                if w < n {
                    assert(s.expected[w].1 == count_eq(s.target_flags(w, -1), true));
                } else {
                    let f = s.target_flags(w, -1);
                    assert forall|c: int| 0 <= c < f.len() implies f[c] != true by {
                        assert(s.live(c) >= 1);
                        if s.lits[c].len() >= 2 && s.live(c) == 1 {
                            crate::count::lemma_first_eq(s.marks[c], false);
                            assert(s.marks[c].len() == s.lits[c].len());
                            assert(s.first(c).var.num < s.value.len());
                        }
                    }
                    crate::count::lemma_count_zero(f, true);
                }
            }
        }
        assert(t.expected_val_ok()) by {
            assert forall|c: int|
                0 <= c < t.lits.len() && t.lits[c].len() >= 2 && #[trigger] t.live(c)
                    == 1 implies t.first(c).polarity() == t.expected[t.first(c).var_index()].0 by {
                assert(s.live(c) == 1);
                crate::count::lemma_first_eq(s.marks[c], false);
                assert(s.marks[c].len() == s.lits[c].len());
                assert(s.first(c).var.num < s.value.len());
            }
            assert forall|w: int| 0 <= w < t.value.len() implies ((#[trigger] t.expected[w]).1 == 0
                <==> t.expected[w].0 == VarValue::VUndef) by {
                if w < n {
                    assert(s.expected[w].1 >= 0);
                }
            }
        }
        assert(t.no_empty()) by {
            assert forall|c: int| 0 <= c < t.lits.len() implies #[trigger] t.live(c) >= 1 by {
                assert(s.live(c) >= 1);
            }
        }
    }
    if s.blank() {
        assert forall|v: int| 0 <= v < t.propagated.len() implies !#[trigger] t.propagated[v] by {
            if v < n {
                assert(!s.propagated[v]);
            }
        }
        assert forall|v: int| 0 <= v < t.expected.len() implies #[trigger] t.expected[v] == (
            VarValue::VUndef,
            0usize,
        ) by {
            if v < n {
                assert(s.expected[v] == (VarValue::VUndef, 0usize));
            }
        }
    }
    if s.grounded() {
        assert forall|m: Assignment| #[trigger] models(t.lits, m) implies extends(m, t.value) by {
            assert(extends(m, s.value));
            assert forall|v: int| 0 <= v < t.value.len() implies (#[trigger] t.value[v]
                == VarValue::VTrue ==> m(v)) && (t.value[v] == VarValue::VFalse ==> !m(v)) by {
                if v < n {
                    assert(t.value[v] == s.value[v]);
                }
            }
        }
    }
    if s.settled() {
        assert forall|v: int|
            0 <= v < t.value.len() && #[trigger] t.value[v]
                != VarValue::VUndef implies t.propagated[v] by {
            assert(s.value[v] != VarValue::VUndef);
        }
    }
    if s.value == unit_values(s.lits, s.lits.len(), s.value.len()) {
        lemma_unit_values_new_var(s.lits, s.lits.len(), s.value.len());
    }
}

/// Lists that are right up to `(ic, ip)` stay right where the formula
/// changes behind that position only.
pub proof fn lemma_map_frame(
    lits: Seq<Seq<Lit>>,
    lits2: Seq<Seq<Lit>>,
    pos: Seq<Seq<Occ>>,
    neg: Seq<Seq<Occ>>,
    cnt: Seq<usize>,
    ic: int,
    ip: int,
    bound: nat,
)
    requires
        map_upto(lits, pos, neg, cnt, ic, ip, bound),
        same_before(lits, lits2, ic, ip),
    ensures
        map_upto(lits2, pos, neg, cnt, ic, ip, bound),
{
    assert forall|v: int| 0 <= v < pos.len() implies occ_upto(
        lits2,
        #[trigger] pos[v],
        lit_of(v, true),
        ic,
        ip,
    ) by {
        lemma_occ_frame(lits, lits2, pos[v], lit_of(v, true), ic, ip);
    }
    assert forall|v: int| 0 <= v < pos.len() implies occ_upto(
        lits2,
        #[trigger] neg[v],
        lit_of(v, false),
        ic,
        ip,
    ) by {
        lemma_occ_frame(lits, lits2, neg[v], lit_of(v, false), ic, ip);
    }
}

/// `unit_values` of the first `k` clauses depends on those clauses only.
pub proof fn lemma_unit_values_frame(lits: Seq<Seq<Lit>>, lits2: Seq<Seq<Lit>>, k: nat, n: nat)
    requires
        k <= lits.len(),
        k <= lits2.len(),
        forall|c: int| 0 <= c < k ==> lits[c] == lits2[c],
    ensures
        unit_values(lits, k, n) == unit_values(lits2, k, n),
    decreases k,
{
    if k > 0 {
        lemma_unit_values_frame(lits, lits2, (k - 1) as nat, n);
    }
}

/// A formula without an empty clause has at least as many literals as
/// clauses.
pub proof fn lemma_size_lower(lits: Seq<Seq<Lit>>, k: nat)
    requires
        k <= lits.len(),
        forall|c: int| 0 <= c < k ==> (#[trigger] lits[c]).len() > 0,
    ensures
        size_of(lits, k) >= k,
    decreases k,
{
    if k > 0 {
        lemma_size_lower(lits, (k - 1) as nat);
        assert(lits[k - 1].len() > 0);
    }
}

/// The entries of the list are in increasing order.
pub open spec fn increasing(list: Seq<Occ>) -> bool {
    forall|j: int, k: int|
        0 <= j < k < list.len() ==> before(
            (#[trigger] list[j]).0 as int,
            list[j].1 as int,
            (#[trigger] list[k]).0 as int,
            list[k].1 as int,
        )
}

/// Every entry of `a` is an entry of `b`.
pub open spec fn entries_in(a: Seq<Occ>, b: Seq<Occ>) -> bool {
    forall|j: int| 0 <= j < a.len() ==> listed(b, (#[trigger] a[j]).0 as int, a[j].1 as int)
}

/// Two lists in increasing order with the same entries are the same list.
pub proof fn lemma_increasing_unique(a: Seq<Occ>, b: Seq<Occ>)
    requires
        increasing(a),
        increasing(b),
        entries_in(a, b),
        entries_in(b, a),
    ensures
        a == b,
    decreases a.len(),
{
    if a.len() == 0 {
        if b.len() > 0 {
            assert(listed(a, b[0].0 as int, b[0].1 as int));
        }
        assert(a =~= b);
    } else {
        let x = a.last();
        assert(listed(b, x.0 as int, x.1 as int));
        let kb = choose|k: int|
            0 <= k < b.len() && (#[trigger] b[k]).0 as int == x.0 as int && b[k].1 as int
                == x.1 as int;
        let y = b.last();
        assert(listed(a, y.0 as int, y.1 as int));
        let ka = choose|k: int|
            0 <= k < a.len() && (#[trigger] a[k]).0 as int == y.0 as int && a[k].1 as int
                == y.1 as int;
        if kb < b.len() - 1 {
            assert(before(b[kb].0 as int, b[kb].1 as int, y.0 as int, y.1 as int));
            if ka < a.len() - 1 {
                assert(before(a[ka].0 as int, a[ka].1 as int, x.0 as int, x.1 as int));
            }
            assert(false);
        }
        assert(b[kb] == x);
        let a2 = a.drop_last();
        let b2 = b.drop_last();
        assert forall|j: int| 0 <= j < a2.len() implies listed(
            b2,
            (#[trigger] a2[j]).0 as int,
            a2[j].1 as int,
        ) by {
            assert(a2[j] == a[j]);
            assert(listed(b, a[j].0 as int, a[j].1 as int));
            let k = choose|k: int|
                0 <= k < b.len() && (#[trigger] b[k]).0 as int == a[j].0 as int && b[k].1 as int
                    == a[j].1 as int;
            assert(before(a[j].0 as int, a[j].1 as int, x.0 as int, x.1 as int));
            assert(k < b.len() - 1);
            assert(b2[k] == b[k]);
        }
        assert forall|j: int| 0 <= j < b2.len() implies listed(
            a2,
            (#[trigger] b2[j]).0 as int,
            b2[j].1 as int,
        ) by {
            assert(b2[j] == b[j]);
            assert(listed(a, b[j].0 as int, b[j].1 as int));
            let k = choose|k: int|
                0 <= k < a.len() && (#[trigger] a[k]).0 as int == b[j].0 as int && a[k].1 as int
                    == b[j].1 as int;
            assert(before(b[j].0 as int, b[j].1 as int, x.0 as int, x.1 as int));
            assert(k < a.len() - 1);
            assert(a2[k] == a[k]);
        }
        assert(increasing(a2)) by {
            assert forall|j: int, k: int| 0 <= j < k < a2.len() implies before(
                (#[trigger] a2[j]).0 as int,
                a2[j].1 as int,
                (#[trigger] a2[k]).0 as int,
                a2[k].1 as int,
            ) by {
                assert(a2[j] == a[j] && a2[k] == a[k]);
            }
        }
        assert(increasing(b2)) by {
            assert forall|j: int, k: int| 0 <= j < k < b2.len() implies before(
                (#[trigger] b2[j]).0 as int,
                b2[j].1 as int,
                (#[trigger] b2[k]).0 as int,
                b2[k].1 as int,
            ) by {
                assert(b2[j] == b[j] && b2[k] == b[k]);
            }
        }
        lemma_increasing_unique(a2, b2);
        assert(a =~= a2.push(x));
        assert(b =~= b2.push(x));
    }
}

/// The occurrence lists of a formula are determined by it: two states with
/// the same formula, all clauses indexed, have the same lists and counts.
pub proof fn lemma_map_determined(s: State, t: State)
    requires
        s.shape(),
        t.shape(),
        s.map_ok(),
        t.map_ok(),
        s.lits == t.lits,
        s.indexed == t.indexed,
        s.value.len() == t.value.len(),
    ensures
        s.pos == t.pos,
        s.neg == t.neg,
        s.cnt == t.cnt,
{
    assert forall|v: int| 0 <= v < s.value.len() implies s.pos[v] == t.pos[v] && s.neg[v]
        == t.neg[v] && s.cnt[v] == t.cnt[v] by {
        assert(s.var_map_ok(v));
        assert(t.var_map_ok(v));
        lemma_occ_unique(s, s.pos[v], t.pos[v], lit_of(v, true));
        lemma_occ_unique(s, s.neg[v], t.neg[v], lit_of(v, false));
    }
    assert(s.pos =~= t.pos);
    assert(s.neg =~= t.neg);
    assert(s.cnt =~= t.cnt);
}

/// Two lists of the positions of one literal are the same list.
pub proof fn lemma_occ_unique(s: State, a: Seq<Occ>, b: Seq<Occ>, l: Lit)
    requires
        s.occ_list_ok(a, l),
        s.occ_list_ok(b, l),
    ensures
        a == b,
{
    assert forall|j: int| 0 <= j < a.len() implies listed(
        b,
        (#[trigger] a[j]).0 as int,
        a[j].1 as int,
    ) by {
        assert(s.is_pos(a[j].0 as int, a[j].1 as int));
        assert(s.lits[a[j].0 as int][a[j].1 as int] == l);
    }
    assert forall|j: int| 0 <= j < b.len() implies listed(
        a,
        (#[trigger] b[j]).0 as int,
        b[j].1 as int,
    ) by {
        assert(s.is_pos(b[j].0 as int, b[j].1 as int));
        assert(s.lits[b[j].0 as int][b[j].1 as int] == l);
    }
    lemma_increasing_unique(a, b);
}

} // verus!
