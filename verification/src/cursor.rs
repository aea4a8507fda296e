//! A pass over an occurrence list, seen as a cursor that moves through the
//! positions of one literal in the formula.

use crate::lit::Lit;
use crate::state::{before, listed, Occ, State};
use vstd::prelude::*;

verus! {

/// The clause index of entry `i` of `list`, or `end` behind the last entry.
pub open spec fn cur_c(list: Seq<Occ>, i: int, end: int) -> int {
    if 0 <= i < list.len() {
        list[i].0 as int
    } else {
        end
    }
}

/// The position in its clause of entry `i` of `list`, or 0 behind the last.
pub open spec fn cur_p(list: Seq<Occ>, i: int) -> int {
    if 0 <= i < list.len() {
        list[i].1 as int
    } else {
        0
    }
}

/// Before a pass starts, no position of the literal lies before the cursor.
pub proof fn lemma_cursor_start(s: State, list: Seq<Occ>, l: Lit)
    requires
        s.occ_list_ok(list, l),
    ensures
        forall|c: int, p: int|
            s.is_pos(c, p) && #[trigger] s.lits[c][p] == l ==> !before(
                c,
                p,
                cur_c(list, 0, s.indexed as int),
                cur_p(list, 0),
            ),
{
    assert forall|c: int, p: int| s.is_pos(c, p) && #[trigger] s.lits[c][p] == l implies !before(
        c,
        p,
        cur_c(list, 0, s.indexed as int),
        cur_p(list, 0),
    ) by {
        assert(listed(list, c, p));
        let j = choose|j: int|
            0 <= j < list.len() && (#[trigger] list[j]).0 as int == c && list[j].1 as int == p;
        if j > 0 {
            assert(before(list[0].0 as int, list[0].1 as int, list[j].0 as int, list[j].1 as int));
        }
    }
}

/// After a pass, every position of the literal lies before the cursor.
pub proof fn lemma_cursor_end(s: State, list: Seq<Occ>, l: Lit)
    ensures
        forall|c: int, p: int|
            s.is_pos(c, p) ==> before(
                c,
                p,
                cur_c(list, list.len() as int, s.indexed as int),
                cur_p(list, list.len() as int),
            ),
{
}

/// One step of a pass moves exactly the entry under the cursor before it.
pub proof fn lemma_cursor_step(s: State, list: Seq<Occ>, l: Lit, i: int)
    requires
        s.occ_list_ok(list, l),
        0 <= i < list.len(),
    ensures
        s.is_pos(list[i].0 as int, list[i].1 as int),
        s.lits[list[i].0 as int][list[i].1 as int] == l,
        forall|c: int, p: int|
            s.is_pos(c, p) && #[trigger] s.lits[c][p] == l ==> (before(
                c,
                p,
                cur_c(list, i + 1, s.indexed as int),
                cur_p(list, i + 1),
            ) <==> before(c, p, list[i].0 as int, list[i].1 as int) || (c == list[i].0 && p
                == list[i].1)),
{
    let end = s.indexed as int;
    assert forall|c: int, p: int| s.is_pos(c, p) && #[trigger] s.lits[c][p] == l implies (before(
        c,
        p,
        cur_c(list, i + 1, end),
        cur_p(list, i + 1),
    ) <==> before(c, p, list[i].0 as int, list[i].1 as int) || (c == list[i].0 && p
        == list[i].1)) by {
        assert(listed(list, c, p));
        let j = choose|j: int|
            0 <= j < list.len() && (#[trigger] list[j]).0 as int == c && list[j].1 as int == p;
        if j < i {
            assert(before(list[j].0 as int, list[j].1 as int, list[i].0 as int, list[i].1 as int));
        } else if j > i {
            assert(before(list[i].0 as int, list[i].1 as int, list[j].0 as int, list[j].1 as int));
            if i + 1 < list.len() && j > i + 1 {
                assert(before(
                    list[i + 1].0 as int,
                    list[i + 1].1 as int,
                    list[j].0 as int,
                    list[j].1 as int,
                ));
            }
        } else {
            if i + 1 < list.len() {
                assert(before(
                    list[i].0 as int,
                    list[i].1 as int,
                    list[i + 1].0 as int,
                    list[i + 1].1 as int,
                ));
            }
        }
    }
}

} // verus!
