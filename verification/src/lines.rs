//! Reading lines of text: words between blanks, numbers, and the literals
//! of a clause written as signed numbers.
//!
//! Lines are taken as ASCII text: words are split at the six ASCII spaces
//! only. A byte of another kind of white space counts as part of a word.

use crate::lit::{Lit, Var};
use vstd::prelude::*;

verus! {

/// A blank, a tab, a line feed, a vertical tab, a form feed or a carriage
/// return.
pub open spec fn is_space(b: u8) -> bool {
    b == 32 || (9 <= b && b <= 13)
}

/// One of the digits `0` to `9`.
pub open spec fn is_digit(b: u8) -> bool {
    48 <= b && b <= 57
}

/// The words that end within `s`, and the bytes of the word that is still
/// open at the end of `s` (none, where `s` ends with a space).
pub open spec fn scanned(s: Seq<u8>) -> (Seq<Seq<u8>>, Seq<u8>)
    decreases s.len(),
{
    if s.len() == 0 {
        (Seq::empty(), Seq::empty())
    } else {
        let before = scanned(s.drop_last());
        if is_space(s.last()) {
            if before.1.len() > 0 {
                (before.0.push(before.1), Seq::empty())
            } else {
                before
            }
        } else {
            (before.0, before.1.push(s.last()))
        }
    }
}

/// The words of `s`: the longest runs of bytes that are not ASCII spaces,
/// in their order.
pub open spec fn words(s: Seq<u8>) -> Seq<Seq<u8>> {
    let done = scanned(s);
    if done.1.len() > 0 {
        done.0.push(done.1)
    } else {
        done.0
    }
}

/// The number that the digits stand for; 0 for no digits.
pub open spec fn digits_value(d: Seq<u8>) -> nat
    decreases d.len(),
{
    if d.len() == 0 {
        0
    } else {
        digits_value(d.drop_last()) * 10 + (d.last() - 48) as nat
    }
}

/// At least one byte, all of them digits.
pub open spec fn all_digits(d: Seq<u8>) -> bool {
    d.len() > 0 && forall|i: int| 0 <= i < d.len() ==> is_digit(#[trigger] d[i])
}

/// The number that the word stands for: digits with at most `limit` as
/// their value, after `skip` bytes that are not part of the number.
pub open spec fn number_after(t: Seq<u8>, skip: int, limit: nat) -> Option<nat> {
    if all_digits(t.skip(skip)) && digits_value(t.skip(skip)) <= limit {
        Some(digits_value(t.skip(skip)))
    } else {
        None
    }
}

/// The whole number between -2147483648 and 2147483647 that the word stands
/// for: digits, with `-` or `+` in front or without a sign.
pub open spec fn int_of(t: Seq<u8>) -> Option<int> {
    if t.len() > 0 && t[0] == 45 {
        match number_after(t, 1, 2147483648) {
            Some(v) => Some(-(v as int)),
            None => None,
        }
    } else if t.len() > 0 && t[0] == 43 {
        match number_after(t, 1, 2147483647) {
            Some(v) => Some(v as int),
            None => None,
        }
    } else {
        match number_after(t, 0, 2147483647) {
            Some(v) => Some(v as int),
            None => None,
        }
    }
}

/// The count that the word stands for: digits, with `+` in front or
/// without a sign, and a value that fits.
pub open spec fn count_of(t: Seq<u8>) -> Option<nat> {
    if t.len() > 0 && t[0] == 43 {
        number_after(t, 1, usize::MAX as nat)
    } else {
        number_after(t, 0, usize::MAX as nat)
    }
}

/// The literal that the word stands for: the positive literal of variable
/// `n` for a number `n` above 0, the negative literal of variable `n` for
/// `-n`, and none for 0 and for a word that is no number.
pub open spec fn word_lit(t: Seq<u8>) -> Option<Lit> {
    match int_of(t) {
        Some(n) => if n < 0 {
            Some(Lit { var: Var { num: (-n) as usize }, positive: false })
        } else if n > 0 {
            Some(Lit { var: Var { num: n as usize }, positive: true })
        } else {
            None
        },
        None => None,
    }
}

/// The literals that the words stand for, in their order.
pub open spec fn words_lits(ws: Seq<Seq<u8>>) -> Seq<Lit>
    decreases ws.len(),
{
    if ws.len() == 0 {
        Seq::empty()
    } else {
        match word_lit(ws.last()) {
            Some(l) => words_lits(ws.drop_last()).push(l),
            None => words_lits(ws.drop_last()),
        }
    }
}

/// The literals of a clause written on a line.
pub open spec fn line_lits(s: Seq<u8>) -> Seq<Lit> {
    words_lits(words(s))
}

/// Whether the byte is a space.
fn space(b: u8) -> (r: bool)
    ensures
        r == is_space(b),
{
    b == 32 || (9 <= b && b <= 13)
}

/// The value of the digits of `t` from position `skip` on, if there are
/// digits only, at least one, and the value is at most `limit`.
pub fn parse_digits(t: &[u8], skip: usize, limit: u64) -> (r: Option<u64>)
    requires
        skip <= t@.len(),
    ensures
        match r {
            Some(v) => number_after(t@, skip as int, limit as nat) == Some(v as nat),
            None => number_after(t@, skip as int, limit as nat) is None,
        },
{
    if skip >= t.len() {
        assert(t@.skip(skip as int).len() == 0);
        return None;
    }
    let ghost d = t@.skip(skip as int);
    let mut acc: u64 = 0;
    let mut over = false;
    let mut i: usize = skip;
    assert(d.take(0) =~= Seq::<u8>::empty());
    while i < t.len()
        invariant
            skip <= i <= t@.len(),
            skip < t@.len(),
            d == t@.skip(skip as int),
            forall|q: int| 0 <= q < i - skip ==> is_digit(#[trigger] d[q]),
            !over ==> acc == digits_value(d.take(i - skip)) && acc <= limit,
            over ==> digits_value(d.take(i - skip)) > limit,
        decreases t@.len() - i,
    {
        let b = t[i];
        proof {
            assert(d[i - skip] == b);
            assert(d.take(i - skip + 1).drop_last() =~= d.take(i - skip));
        }
        if !(48 <= b && b <= 57) {
            assert(!all_digits(d));
            return None;
        }
        if !over {
            let digit: u64 = (b - 48) as u64;
            if limit < digit || acc > (limit - digit) / 10 {
                over = true;
            } else {
                acc = acc * 10 + digit;
            }
        }
        i += 1;
    }
    proof {
        assert(d.take(i - skip) =~= d);
    }
    if over {
        None
    } else {
        Some(acc)
    }
}

/// The literal that a word stands for (`word_lit`).
pub fn parse_lit(t: &[u8]) -> (r: Option<Lit>)
    ensures
        r == word_lit(t@),
{
    if t.len() > 0 && t[0] == 45 {
        match parse_digits(t, 1, 2147483648) {
            Some(v) => {
                if v > 0 {
                    Some(Lit { var: Var { num: v as usize }, positive: false })
                } else {
                    None
                }
            },
            None => None,
        }
    } else if t.len() > 0 && t[0] == 43 {
        match parse_digits(t, 1, 2147483647) {
            Some(v) => {
                if v > 0 {
                    Some(Lit { var: Var { num: v as usize }, positive: true })
                } else {
                    None
                }
            },
            None => None,
        }
    } else {
        match parse_digits(t, 0, 2147483647) {
            Some(v) => {
                if v > 0 {
                    Some(Lit { var: Var { num: v as usize }, positive: true })
                } else {
                    None
                }
            },
            None => None,
        }
    }
}

/// The words of a line of ASCII text: the runs of bytes between ASCII
/// spaces.
pub fn split_words(line: &[u8]) -> (r: Vec<Vec<u8>>)
    ensures
        r@.len() == words(line@).len(),
        forall|k: int| 0 <= k < r@.len() ==> (#[trigger] r@[k])@ == words(line@)[k],
{
    let mut done = Vec::<Vec<u8>>::new();
    let mut open = Vec::<u8>::new();
    let mut i: usize = 0;
    assert(line@.take(0) =~= Seq::<u8>::empty());
    while i < line.len()
        invariant
            0 <= i <= line@.len(),
            done@.len() == scanned(line@.take(i as int)).0.len(),
            forall|k: int|
                0 <= k < done@.len() ==> (#[trigger] done@[k])@ == scanned(line@.take(i as int)).0[k],
            open@ == scanned(line@.take(i as int)).1,
        decreases line@.len() - i,
    {
        let b = line[i];
        proof {
            assert(line@.take(i + 1).drop_last() =~= line@.take(i as int));
            assert(line@.take(i + 1).last() == b);
        }
        if space(b) {
            if open.len() > 0 {
                done.push(open);
                open = Vec::new();
            }
        } else {
            open.push(b);
        }
        i += 1;
    }
    proof {
        assert(line@.take(i as int) =~= line@);
    }
    if open.len() > 0 {
        done.push(open);
    }
    done
}

/// The literals of a clause written on a line as signed numbers between
/// spaces. A word that is no number, or 0, stands for no literal.
pub fn parse_clause_line(line: &[u8]) -> (r: Vec<Lit>)
    ensures
        r@ == line_lits(line@),
{
    let ws = split_words(line);
    let ghost target = words(line@);
    let mut lits = Vec::<Lit>::new();
    let mut k: usize = 0;
    assert(target.take(0) =~= Seq::<Seq<u8>>::empty());
    while k < ws.len()
        invariant
            0 <= k <= ws@.len(),
            ws@.len() == target.len(),
            forall|j: int| 0 <= j < ws@.len() ==> (#[trigger] ws@[j])@ == target[j],
            lits@ == words_lits(target.take(k as int)),
        decreases ws@.len() - k,
    {
        proof {
            assert(target.take(k + 1).drop_last() =~= target.take(k as int));
            assert(target.take(k + 1).last() == ws@[k as int]@);
        }
        match parse_lit(ws[k].as_slice()) {
            Some(l) => {
                lits.push(l);
            },
            None => {},
        }
        k += 1;
    }
    proof {
        assert(target.take(k as int) =~= target);
    }
    lits
}

/// The count that a word stands for (`count_of`).
pub fn parse_count(t: &[u8]) -> (r: Option<usize>)
    ensures
        match r {
            Some(v) => count_of(t@) == Some(v as nat),
            None => count_of(t@) is None,
        },
{
    let skip: usize = if t.len() > 0 && t[0] == 43 {
        1
    } else {
        0
    };
    match parse_digits(t, skip, usize::MAX as u64) {
        Some(v) => Some(v as usize),
        None => None,
    }
}

} // verus!
