//! Counting the entries of a sequence of flags, with the facts about such
//! counts that the solver's invariants rest on.

use vstd::prelude::*;

verus! {

/// The number of entries of `s` that equal `b`.
pub open spec fn count_eq(s: Seq<bool>, b: bool) -> nat
    decreases s.len(),
{
    if s.len() == 0 {
        0
    } else {
        count_eq(s.drop_last(), b) + if s.last() == b {
            1nat
        } else {
            0nat
        }
    }
}

/// A count never exceeds the length.
pub proof fn lemma_count_bound(s: Seq<bool>, b: bool)
    ensures
        count_eq(s, b) <= s.len(),
    decreases s.len(),
{
    if s.len() > 0 {
        lemma_count_bound(s.drop_last(), b);
    }
}

/// Appending one entry adds one to the count exactly when the entry equals `b`.
pub proof fn lemma_count_push(s: Seq<bool>, v: bool, b: bool)
    ensures
        count_eq(s.push(v), b) == count_eq(s, b) + if v == b {
            1nat
        } else {
            0nat
        },
{
    assert(s.push(v).drop_last() =~= s);
}

/// Overwriting one entry changes the count by what the entry lost and gained.
pub proof fn lemma_count_update(s: Seq<bool>, k: int, v: bool, b: bool)
    requires
        0 <= k < s.len(),
    ensures
        count_eq(s.update(k, v), b) + (if s[k] == b {
            1nat
        } else {
            0nat
        }) == count_eq(s, b) + if v == b {
            1nat
        } else {
            0nat
        },
    decreases s.len(),
{
    let t = s.update(k, v);
    if k == s.len() - 1 {
        assert(t.drop_last() =~= s.drop_last());
    } else {
        lemma_count_update(s.drop_last(), k, v, b);
        assert(t.drop_last() =~= s.drop_last().update(k, v));
    }
}

/// The count is zero exactly when no entry equals `b`.
pub proof fn lemma_count_zero(s: Seq<bool>, b: bool)
    ensures
        count_eq(s, b) == 0 <==> (forall|i: int| 0 <= i < s.len() ==> s[i] != b),
    decreases s.len(),
{
    if s.len() > 0 {
        let t = s.drop_last();
        lemma_count_zero(t, b);
        if count_eq(s, b) == 0 {
            assert forall|i: int| 0 <= i < s.len() implies s[i] != b by {
                if i < s.len() - 1 {
                    assert(t[i] == s[i]);
                }
            }
        }
        if forall|i: int| 0 <= i < s.len() ==> s[i] != b {
            assert forall|i: int| 0 <= i < t.len() implies t[i] != b by {
                assert(t[i] == s[i]);
            }
        }
    }
}

/// The count is the length exactly when every entry equals `b`.
pub proof fn lemma_count_full(s: Seq<bool>, b: bool)
    ensures
        count_eq(s, b) == s.len() <==> (forall|i: int| 0 <= i < s.len() ==> s[i] == b),
    decreases s.len(),
{
    if s.len() > 0 {
        let t = s.drop_last();
        lemma_count_full(t, b);
        lemma_count_bound(t, b);
        if count_eq(s, b) == s.len() {
            assert forall|i: int| 0 <= i < s.len() implies s[i] == b by {
                if i < s.len() - 1 {
                    assert(t[i] == s[i]);
                }
            }
        }
        if forall|i: int| 0 <= i < s.len() ==> s[i] == b {
            assert forall|i: int| 0 <= i < t.len() implies t[i] == b by {
                assert(t[i] == s[i]);
            }
        }
    }
}

/// An entry that equals `b` makes the count positive.
pub proof fn lemma_count_pos(s: Seq<bool>, b: bool, k: int)
    requires
        0 <= k < s.len(),
        s[k] == b,
    ensures
        count_eq(s, b) >= 1,
{
    lemma_count_zero(s, b);
}

/// Two distinct entries that equal `b` make the count at least two.
pub proof fn lemma_count_two(s: Seq<bool>, b: bool, j: int, k: int)
    requires
        0 <= j < s.len(),
        0 <= k < s.len(),
        j != k,
        s[j] == b,
        s[k] == b,
    ensures
        count_eq(s, b) >= 2,
{
    let t = s.update(j, !b);
    lemma_count_update(s, j, !b, b);
    lemma_count_pos(t, b, k);
}

/// With a count of one, the entry that equals `b` is the only one.
pub proof fn lemma_count_one(s: Seq<bool>, b: bool, k: int)
    requires
        0 <= k < s.len(),
        s[k] == b,
        count_eq(s, b) == 1,
    ensures
        forall|i: int| 0 <= i < s.len() && i != k ==> s[i] != b,
{
    assert forall|i: int| 0 <= i < s.len() && i != k implies s[i] != b by {
        if s[i] == b {
            lemma_count_two(s, b, i, k);
        }
    }
}

/// A positive count has a witness, and the first of them is `first_eq`.
pub open spec fn first_eq(s: Seq<bool>, b: bool) -> int
    decreases s.len(),
{
    if s.len() == 0 {
        0
    } else if count_eq(s.drop_last(), b) > 0 {
        first_eq(s.drop_last(), b)
    } else {
        s.len() - 1
    }
}

/// `first_eq` is the least index whose entry equals `b`, when there is one.
pub proof fn lemma_first_eq(s: Seq<bool>, b: bool)
    requires
        count_eq(s, b) > 0,
    ensures
        0 <= first_eq(s, b) < s.len(),
        s[first_eq(s, b)] == b,
        forall|i: int| 0 <= i < first_eq(s, b) ==> s[i] != b,
    decreases s.len(),
{
    let t = s.drop_last();
    if count_eq(t, b) > 0 {
        lemma_first_eq(t, b);
        assert forall|i: int| 0 <= i < first_eq(s, b) implies s[i] != b by {
            assert(t[i] == s[i]);
        }
    } else {
        lemma_count_zero(t, b);
        assert forall|i: int| 0 <= i < first_eq(s, b) implies s[i] != b by {
            assert(t[i] == s[i]);
        }
    }
}

/// An index whose entry equals `b` and before which none does is `first_eq`.
pub proof fn lemma_first_eq_is(s: Seq<bool>, b: bool, k: int)
    requires
        0 <= k < s.len(),
        s[k] == b,
        forall|i: int| 0 <= i < k ==> s[i] != b,
    ensures
        first_eq(s, b) == k,
        count_eq(s, b) > 0,
{
    lemma_count_pos(s, b, k);
    lemma_first_eq(s, b);
}

/// Flags of which each implies its partner count at most as many.
pub proof fn lemma_count_mono(a: Seq<bool>, b: Seq<bool>)
    requires
        a.len() == b.len(),
        forall|i: int| 0 <= i < a.len() && a[i] ==> b[i],
    ensures
        count_eq(a, true) <= count_eq(b, true),
    decreases a.len(),
{
    if a.len() > 0 {
        lemma_count_mono(a.drop_last(), b.drop_last());
    }
}

} // verus!
