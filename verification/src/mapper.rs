//! The rules of a 9 by 9 Sudoku as clauses, written as text: one clause on
//! a line, each literal a number followed by a blank, a minus sign in front
//! of a negative literal, and `0` at the end of the line. The variable with
//! the digits `i`, `j` and `k` says that the cell in row `i` and column `j`
//! holds the value `k`.

use crate::text::{concat_range, decimal, lemma_concat_step, push_decimal};
use vstd::prelude::*;

verus! {

const NUM_VARS: u32 = 9;

const SQUARE_SIZE: u32 = 9;

const BOX_SIZE: u32 = 3;

/// The digits of the variable of row `i`, column `j` and value `k`.
pub open spec fn cell(i: int, j: int, k: int) -> Seq<char> {
    decimal(i as nat) + decimal(j as nat) + decimal(k as nat)
}

/// A positive literal: the variable and a blank.
pub open spec fn pos_token(i: int, j: int, k: int) -> Seq<char> {
    cell(i, j, k) + seq![' ']
}

/// A negative literal: a minus sign, the variable and a blank.
pub open spec fn neg_token(i: int, j: int, k: int) -> Seq<char> {
    seq!['-'] + cell(i, j, k) + seq![' ']
}

/// The end of a clause.
pub open spec fn clause_end() -> Seq<char> {
    seq!['0', '\n']
}

/// The clause of two negative literals.
pub open spec fn pair(a: Seq<char>, b: Seq<char>) -> Seq<char> {
    a + b + clause_end()
}

/// The literals of one row and one value, over the columns.
pub open spec fn row_1a(i: int, k: int) -> spec_fn(int) -> Seq<char> {
    |j: int| pos_token(i, j, k)
}

/// For each row, the clause that the value `k` stands in it.
pub open spec fn rows_1a(k: int) -> spec_fn(int) -> Seq<char> {
    |i: int| concat_range(1, 10, row_1a(i, k)) + clause_end()
}

/// For each value, the clauses that it stands in every row.
pub open spec fn layer_1a() -> spec_fn(int) -> Seq<char> {
    |k: int| concat_range(1, 10, rows_1a(k))
}

/// Every value stands in every row.
pub open spec fn text_1a() -> Seq<char> {
    concat_range(1, 10, layer_1a())
}

/// The literals of one column and one value, over the rows.
pub open spec fn row_1b(i: int, k: int) -> spec_fn(int) -> Seq<char> {
    |j: int| pos_token(j, i, k)
}

/// For each column, the clause that the value `k` stands in it.
pub open spec fn rows_1b(k: int) -> spec_fn(int) -> Seq<char> {
    |i: int| concat_range(1, 10, row_1b(i, k)) + clause_end()
}

/// For each value, the clauses that it stands in every column.
pub open spec fn layer_1b() -> spec_fn(int) -> Seq<char> {
    |k: int| concat_range(1, 10, rows_1b(k))
}

/// Every value stands in every column.
pub open spec fn text_1b() -> Seq<char> {
    concat_range(1, 10, layer_1b())
}

/// The value `k` does not stand in row `n` both in column `j` and in a
/// later column.
pub open spec fn pair_2a(n: int, j: int, k: int) -> spec_fn(int) -> Seq<char> {
    |i: int| pair(neg_token(n, j, k), neg_token(n, i, k))
}

/// For each column, the clauses of `pair_2a` with the later columns.
pub open spec fn pairs_2a(n: int, k: int) -> spec_fn(int) -> Seq<char> {
    |j: int| concat_range(j + 1, 10, pair_2a(n, j, k))
}

/// For each row, the clauses that the value `k` stands in it once at most.
pub open spec fn rows_2a(k: int) -> spec_fn(int) -> Seq<char> {
    |n: int| concat_range(1, 10, pairs_2a(n, k))
}

/// For each value, the clauses of `rows_2a`.
pub open spec fn layer_2a() -> spec_fn(int) -> Seq<char> {
    |k: int| concat_range(1, 10, rows_2a(k))
}

/// No value stands twice in a row.
pub open spec fn text_2a() -> Seq<char> {
    concat_range(1, 10, layer_2a())
}

/// The value `k` does not stand in column `n` both in row `j` and in a
/// later row.
pub open spec fn pair_2b(n: int, j: int, k: int) -> spec_fn(int) -> Seq<char> {
    |i: int| pair(neg_token(j, n, k), neg_token(i, n, k))
}

/// For each row, the clauses of `pair_2b` with the later rows.
pub open spec fn pairs_2b(n: int, k: int) -> spec_fn(int) -> Seq<char> {
    |j: int| concat_range(j + 1, 10, pair_2b(n, j, k))
}

/// For each column, the clauses that the value `k` stands in it once at
/// most.
pub open spec fn rows_2b(k: int) -> spec_fn(int) -> Seq<char> {
    |n: int| concat_range(1, 10, pairs_2b(n, k))
}

/// For each value, the clauses of `rows_2b`.
pub open spec fn layer_2b() -> spec_fn(int) -> Seq<char> {
    |k: int| concat_range(1, 10, rows_2b(k))
}

/// No value stands twice in a column.
pub open spec fn text_2b() -> Seq<char> {
    concat_range(1, 10, layer_2b())
}

/// The negative literals of one row of a box.
pub open spec fn box_row_3a(m: int, n: int, k: int, i: int) -> spec_fn(int) -> Seq<char> {
    |j: int| neg_token(m + i, n + j, k)
}

/// For each row of a box, its negative literals.
pub open spec fn box_rows_3a(m: int, n: int, k: int) -> spec_fn(int) -> Seq<char> {
    |i: int| concat_range(0, 3, box_row_3a(m, n, k, i))
}

/// For each column that starts a box, the clause of the box's negative
/// literals; nothing for another column.
pub open spec fn boxes_3a(m: int, k: int) -> spec_fn(int) -> Seq<char> {
    |n: int|
        if n % 3 == 1 {
            concat_range(0, 3, box_rows_3a(m, n, k)) + clause_end()
        } else {
            Seq::empty()
        }
}

/// For each row that starts a box, the clauses of the boxes in it; nothing
/// for another row.
pub open spec fn bands_3a(k: int) -> spec_fn(int) -> Seq<char> {
    |m: int|
        if m % 3 == 1 {
            concat_range(1, 10, boxes_3a(m, k))
        } else {
            Seq::empty()
        }
}

/// For each value, the clauses of `bands_3a`.
pub open spec fn layer_3a() -> spec_fn(int) -> Seq<char> {
    |k: int| concat_range(1, 10, bands_3a(k))
}

/// For every value and box, one clause of the negative literals of the box.
pub open spec fn text_3a() -> Seq<char> {
    concat_range(1, 10, layer_3a())
}

/// The positive literal of cell `idx` of the box that starts in row `m` and
/// column `n`, the cells counted row by row from 0.
pub open spec fn box_token(m: int, n: int, k: int, idx: int) -> Seq<char> {
    pos_token(m + idx / 3, n + idx % 3, k)
}

/// The clause of two cells of a box, each literal with a minus sign in front
/// and a blank behind.
pub open spec fn pair_3b(m: int, n: int, k: int, j: int) -> spec_fn(int) -> Seq<char> {
    |i: int|
        pair(
            seq!['-'] + box_token(m, n, k, j) + seq![' '],
            seq!['-'] + box_token(m, n, k, i) + seq![' '],
        )
}

/// For each cell of a box, the clauses of `pair_3b` with the later cells.
pub open spec fn pairs_3b(m: int, n: int, k: int) -> spec_fn(int) -> Seq<char> {
    |j: int| concat_range(j + 1, 9, pair_3b(m, n, k, j))
}

/// For each column that starts a box, the clauses of the box; nothing for
/// another column.
pub open spec fn boxes_3b(m: int, k: int) -> spec_fn(int) -> Seq<char> {
    |n: int|
        if n % 3 == 1 {
            concat_range(0, 9, pairs_3b(m, n, k))
        } else {
            Seq::empty()
        }
}

/// For each row that starts a box, the clauses of the boxes in it; nothing
/// for another row.
pub open spec fn bands_3b(k: int) -> spec_fn(int) -> Seq<char> {
    |m: int|
        if m % 3 == 1 {
            concat_range(1, 10, boxes_3b(m, k))
        } else {
            Seq::empty()
        }
}

/// For each value, the clauses of `bands_3b`.
pub open spec fn layer_3b() -> spec_fn(int) -> Seq<char> {
    |k: int| concat_range(1, 10, bands_3b(k))
}

/// No value stands twice in a box.
pub open spec fn text_3b() -> Seq<char> {
    concat_range(1, 10, layer_3b())
}

/// The literals of one cell, over the values.
pub open spec fn cell_4(i: int, j: int) -> spec_fn(int) -> Seq<char> {
    |k: int| pos_token(i, j, k)
}

/// For each column, the clause that the cell in row `i` holds a value.
pub open spec fn cells_4(i: int) -> spec_fn(int) -> Seq<char> {
    |j: int| concat_range(1, 10, cell_4(i, j)) + clause_end()
}

/// For each row, the clauses of `cells_4`.
pub open spec fn rows_4() -> spec_fn(int) -> Seq<char> {
    |i: int| concat_range(1, 10, cells_4(i))
}

/// Every cell holds a value.
pub open spec fn text_4() -> Seq<char> {
    concat_range(1, 10, rows_4())
}

/// The cell does not hold both the value `k` and a greater value.
pub open spec fn pair_5(i: int, j: int, k: int) -> spec_fn(int) -> Seq<char> {
    |m: int| pair(neg_token(i, j, k), neg_token(i, j, m))
}

/// For each value, the clauses of `pair_5` with the greater values.
pub open spec fn pairs_5(i: int, j: int) -> spec_fn(int) -> Seq<char> {
    |k: int| concat_range(k + 1, 10, pair_5(i, j, k))
}

/// For each column, the clauses that the cell in row `i` holds one value at
/// most.
pub open spec fn cells_5(i: int) -> spec_fn(int) -> Seq<char> {
    |j: int| concat_range(1, 10, pairs_5(i, j))
}

/// For each row, the clauses of `cells_5`.
pub open spec fn rows_5() -> spec_fn(int) -> Seq<char> {
    |i: int| concat_range(1, 10, cells_5(i))
}

/// No cell holds two values.
pub open spec fn text_5() -> Seq<char> {
    concat_range(1, 10, rows_5())
}

/// All the rules, in the order in which `build_clauses` writes them.
pub open spec fn text_all() -> Seq<char> {
    text_1a() + text_1b() + text_2a() + text_2b() + text_3a() + text_3b() + text_4() + text_5()
}

/// Writes the rules of Sudoku as clauses.
#[derive(Debug)]
pub struct Mapper {
    pub out: String,
}

impl Mapper {
    /// A mapper that has written nothing yet.
    pub fn new() -> (r: Mapper)
        ensures
            r.out@ == Seq::<char>::empty(),
    {
        Mapper { out: String::new() }
    }

    /// Appends the digits of the variable of row `i`, column `j`, value `k`.
    fn push_cell(&mut self, i: u32, j: u32, k: u32)
        ensures
            final(self).out@ == old(self).out@ + cell(i as int, j as int, k as int),
    {
        push_decimal(&mut self.out, i as usize);
        push_decimal(&mut self.out, j as usize);
        push_decimal(&mut self.out, k as usize);
        assert(self.out@ =~= old(self).out@ + cell(i as int, j as int, k as int));
    }

    /// Appends a positive literal: the digits of row `i`, column `j` and
    /// value `k`, and a blank.
    pub fn push_pos(&mut self, i: u32, j: u32, k: u32)
        ensures
            final(self).out@ == old(self).out@ + pos_token(i as int, j as int, k as int),
    {
        self.push_cell(i, j, k);
        proof {
            reveal_strlit(" ");
        }
        self.out.append(" ");
        assert(self.out@ =~= old(self).out@ + pos_token(i as int, j as int, k as int));
    }

    /// Appends a negative literal.
    fn push_neg(&mut self, i: u32, j: u32, k: u32)
        ensures
            final(self).out@ == old(self).out@ + neg_token(i as int, j as int, k as int),
    {
        proof {
            reveal_strlit(" ");
            reveal_strlit("-");
        }
        self.out.append("-");
        self.push_cell(i, j, k);
        self.out.append(" ");
        assert(self.out@ =~= old(self).out@ + neg_token(i as int, j as int, k as int));
    }

    /// Appends the end of a clause.
    fn push_end(&mut self)
        ensures
            final(self).out@ == old(self).out@ + clause_end(),
    {
        proof {
            reveal_strlit("0\n");
        }
        self.out.append("0\n");
        assert(self.out@ =~= old(self).out@ + clause_end());
    }

    /// Appends the clause of two negative literals.
    fn push_pair(&mut self, a: (u32, u32, u32), b: (u32, u32, u32))
        ensures
            final(self).out@ == old(self).out@ + pair(
                neg_token(a.0 as int, a.1 as int, a.2 as int),
                neg_token(b.0 as int, b.1 as int, b.2 as int),
            ),
    {
        self.push_neg(a.0, a.1, a.2);
        self.push_neg(b.0, b.1, b.2);
        self.push_end();
        assert(self.out@ =~= old(self).out@ + pair(
            neg_token(a.0 as int, a.1 as int, a.2 as int),
            neg_token(b.0 as int, b.1 as int, b.2 as int),
        ));
    }

    /// Appends all the rules.
    pub fn build_clauses(&mut self)
        ensures
            final(self).out@ == old(self).out@ + text_all(),
    {
        self.constraint_1a();
        self.constraint_1b();
        self.constraint_2a();
        self.constraint_2b();
        self.constraint_3a();
        self.constraint_3b();
        self.constraint_4();
        self.constraint_5();
        assert(self.out@ =~= old(self).out@ + text_all());
    }

    /// Appends, for every value and row, the clause that the value stands in
    /// the row.
    pub fn constraint_1a(&mut self)
        ensures
            final(self).out@ == old(self).out@ + text_1a(),
    {
        let ghost b0 = self.out@;
        let mut k: u32 = 1;
        assert(b0 + concat_range(1, 1, layer_1a()) =~= b0);
        while k < NUM_VARS + 1
            invariant
                1 <= k <= 10,
                self.out@ == b0 + concat_range(1, k as int, layer_1a()),
            decreases 10 - k,
        {
            let ghost b1 = self.out@;
            let mut i: u32 = 1;
            assert(b1 + concat_range(1, 1, rows_1a(k as int)) =~= b1);
            while i < SQUARE_SIZE + 1
                invariant
                    1 <= i <= 10,
                    self.out@ == b1 + concat_range(1, i as int, rows_1a(k as int)),
                decreases 10 - i,
            {
                let ghost b2 = self.out@;
                let mut j: u32 = 1;
                assert(b2 + concat_range(1, 1, row_1a(i as int, k as int)) =~= b2);
                while j < SQUARE_SIZE + 1
                    invariant
                        1 <= j <= 10,
                        self.out@ == b2 + concat_range(1, j as int, row_1a(i as int, k as int)),
                    decreases 10 - j,
                {
                    self.push_pos(i, j, k);
                    proof {
                        lemma_concat_step(b2, 1, j as int, row_1a(i as int, k as int));
                    }
                    j += 1;
                }
                self.push_end();
                proof {
                    lemma_concat_step(b1, 1, i as int, rows_1a(k as int));
                    assert(self.out@ =~= b1 + concat_range(1, i as int, rows_1a(k as int))
                        + rows_1a(k as int)(i as int));
                }
                i += 1;
            }
            proof {
                lemma_concat_step(b0, 1, k as int, layer_1a());
            }
            k += 1;
        }
    }

    /// Appends, for every value and column, the clause that the value stands
    /// in the column.
    pub fn constraint_1b(&mut self)
        ensures
            final(self).out@ == old(self).out@ + text_1b(),
    {
        let ghost b0 = self.out@;
        let mut k: u32 = 1;
        assert(b0 + concat_range(1, 1, layer_1b()) =~= b0);
        while k < NUM_VARS + 1
            invariant
                1 <= k <= 10,
                self.out@ == b0 + concat_range(1, k as int, layer_1b()),
            decreases 10 - k,
        {
            let ghost b1 = self.out@;
            let mut i: u32 = 1;
            assert(b1 + concat_range(1, 1, rows_1b(k as int)) =~= b1);
            while i < SQUARE_SIZE + 1
                invariant
                    1 <= i <= 10,
                    self.out@ == b1 + concat_range(1, i as int, rows_1b(k as int)),
                decreases 10 - i,
            {
                let ghost b2 = self.out@;
                let mut j: u32 = 1;
                assert(b2 + concat_range(1, 1, row_1b(i as int, k as int)) =~= b2);
                while j < SQUARE_SIZE + 1
                    invariant
                        1 <= j <= 10,
                        self.out@ == b2 + concat_range(1, j as int, row_1b(i as int, k as int)),
                    decreases 10 - j,
                {
                    self.push_pos(j, i, k);
                    proof {
                        lemma_concat_step(b2, 1, j as int, row_1b(i as int, k as int));
                    }
                    j += 1;
                }
                self.push_end();
                proof {
                    lemma_concat_step(b1, 1, i as int, rows_1b(k as int));
                    assert(self.out@ =~= b1 + concat_range(1, i as int, rows_1b(k as int))
                        + rows_1b(k as int)(i as int));
                }
                i += 1;
            }
            proof {
                lemma_concat_step(b0, 1, k as int, layer_1b());
            }
            k += 1;
        }
    }

    /// Appends, for every value, row and pair of columns, the clause that
    /// the value does not stand in the row in both columns.
    pub fn constraint_2a(&mut self)
        ensures
            final(self).out@ == old(self).out@ + text_2a(),
    {
        let ghost b0 = self.out@;
        let mut k: u32 = 1;
        assert(b0 + concat_range(1, 1, layer_2a()) =~= b0);
        while k < NUM_VARS + 1
            invariant
                1 <= k <= 10,
                self.out@ == b0 + concat_range(1, k as int, layer_2a()),
            decreases 10 - k,
        {
            let ghost b1 = self.out@;
            let mut n: u32 = 1;
            assert(b1 + concat_range(1, 1, rows_2a(k as int)) =~= b1);
            while n < SQUARE_SIZE + 1
                invariant
                    1 <= n <= 10,
                    self.out@ == b1 + concat_range(1, n as int, rows_2a(k as int)),
                decreases 10 - n,
            {
                let ghost b2 = self.out@;
                let mut j: u32 = 1;
                assert(b2 + concat_range(1, 1, pairs_2a(n as int, k as int)) =~= b2);
                while j < SQUARE_SIZE + 1
                    invariant
                        1 <= j <= 10,
                        self.out@ == b2 + concat_range(1, j as int, pairs_2a(n as int, k as int)),
                    decreases 10 - j,
                {
                    let ghost b3 = self.out@;
                    let mut i: u32 = j + 1;
                    assert(b3 + concat_range(j + 1, j + 1, pair_2a(n as int, j as int, k as int))
                        =~= b3);
                    while i < SQUARE_SIZE + 1
                        invariant
                            j + 1 <= i <= 10,
                            self.out@ == b3 + concat_range(
                                j + 1,
                                i as int,
                                pair_2a(n as int, j as int, k as int),
                            ),
                        decreases 10 - i,
                    {
                        self.push_pair((n, j, k), (n, i, k));
                        proof {
                            lemma_concat_step(
                                b3,
                                j + 1,
                                i as int,
                                pair_2a(n as int, j as int, k as int),
                            );
                        }
                        i += 1;
                    }
                    proof {
                        lemma_concat_step(b2, 1, j as int, pairs_2a(n as int, k as int));
                    }
                    j += 1;
                }
                proof {
                    lemma_concat_step(b1, 1, n as int, rows_2a(k as int));
                }
                n += 1;
            }
            proof {
                lemma_concat_step(b0, 1, k as int, layer_2a());
            }
            k += 1;
        }
    }

    /// Appends, for every value, column and pair of rows, the clause that
    /// the value does not stand in the column in both rows.
    pub fn constraint_2b(&mut self)
        ensures
            final(self).out@ == old(self).out@ + text_2b(),
    {
        let ghost b0 = self.out@;
        let mut k: u32 = 1;
        assert(b0 + concat_range(1, 1, layer_2b()) =~= b0);
        while k < NUM_VARS + 1
            invariant
                1 <= k <= 10,
                self.out@ == b0 + concat_range(1, k as int, layer_2b()),
            decreases 10 - k,
        {
            let ghost b1 = self.out@;
            let mut n: u32 = 1;
            assert(b1 + concat_range(1, 1, rows_2b(k as int)) =~= b1);
            while n < SQUARE_SIZE + 1
                invariant
                    1 <= n <= 10,
                    self.out@ == b1 + concat_range(1, n as int, rows_2b(k as int)),
                decreases 10 - n,
            {
                let ghost b2 = self.out@;
                let mut j: u32 = 1;
                assert(b2 + concat_range(1, 1, pairs_2b(n as int, k as int)) =~= b2);
                while j < SQUARE_SIZE + 1
                    invariant
                        1 <= j <= 10,
                        self.out@ == b2 + concat_range(1, j as int, pairs_2b(n as int, k as int)),
                    decreases 10 - j,
                {
                    let ghost b3 = self.out@;
                    let mut i: u32 = j + 1;
                    assert(b3 + concat_range(j + 1, j + 1, pair_2b(n as int, j as int, k as int))
                        =~= b3);
                    while i < SQUARE_SIZE + 1
                        invariant
                            j + 1 <= i <= 10,
                            self.out@ == b3 + concat_range(
                                j + 1,
                                i as int,
                                pair_2b(n as int, j as int, k as int),
                            ),
                        decreases 10 - i,
                    {
                        self.push_pair((j, n, k), (i, n, k));
                        proof {
                            lemma_concat_step(
                                b3,
                                j + 1,
                                i as int,
                                pair_2b(n as int, j as int, k as int),
                            );
                        }
                        i += 1;
                    }
                    proof {
                        lemma_concat_step(b2, 1, j as int, pairs_2b(n as int, k as int));
                    }
                    j += 1;
                }
                proof {
                    lemma_concat_step(b1, 1, n as int, rows_2b(k as int));
                }
                n += 1;
            }
            proof {
                lemma_concat_step(b0, 1, k as int, layer_2b());
            }
            k += 1;
        }
    }

    /// Appends, for every value and box, the clause of the negative
    /// literals of the cells of the box.
    pub fn constraint_3a(&mut self)
        ensures
            final(self).out@ == old(self).out@ + text_3a(),
    {
        let ghost b0 = self.out@;
        let mut k: u32 = 1;
        assert(b0 + concat_range(1, 1, layer_3a()) =~= b0);
        while k < NUM_VARS + 1
            invariant
                1 <= k <= 10,
                self.out@ == b0 + concat_range(1, k as int, layer_3a()),
            decreases 10 - k,
        {
            let ghost b1 = self.out@;
            let mut m: u32 = 1;
            assert(b1 + concat_range(1, 1, bands_3a(k as int)) =~= b1);
            while m < SQUARE_SIZE + 1
                invariant
                    1 <= m <= 10,
                    self.out@ == b1 + concat_range(1, m as int, bands_3a(k as int)),
                decreases 10 - m,
            {
                let ghost b2 = self.out@;
                if m % BOX_SIZE == 1 {
                    let mut n: u32 = 1;
                    assert(b2 + concat_range(1, 1, boxes_3a(m as int, k as int)) =~= b2);
                    while n < SQUARE_SIZE + 1
                        invariant
                            1 <= n <= 10,
                            1 <= m <= 7,
                            self.out@ == b2 + concat_range(
                                1,
                                n as int,
                                boxes_3a(m as int, k as int),
                            ),
                        decreases 10 - n,
                    {
                        let ghost b3 = self.out@;
                        if n % BOX_SIZE == 1 {
                            let mut i: u32 = 0;
                            assert(b3 + concat_range(
                                0,
                                0,
                                box_rows_3a(m as int, n as int, k as int),
                            ) =~= b3);
                            while i < BOX_SIZE
                                invariant
                                    0 <= i <= 3,
                                    1 <= m <= 7,
                                    1 <= n <= 7,
                                    self.out@ == b3 + concat_range(
                                        0,
                                        i as int,
                                        box_rows_3a(m as int, n as int, k as int),
                                    ),
                                decreases 3 - i,
                            {
                                let ghost b4 = self.out@;
                                let mut j: u32 = 0;
                                assert(b4 + concat_range(
                                    0,
                                    0,
                                    box_row_3a(m as int, n as int, k as int, i as int),
                                ) =~= b4);
                                while j < BOX_SIZE
                                    invariant
                                        0 <= j <= 3,
                                        0 <= i < 3,
                                        1 <= m <= 7,
                                        1 <= n <= 7,
                                        self.out@ == b4 + concat_range(
                                            0,
                                            j as int,
                                            box_row_3a(m as int, n as int, k as int, i as int),
                                        ),
                                    decreases 3 - j,
                                {
                                    self.push_neg(m + i, n + j, k);
                                    proof {
                                        lemma_concat_step(
                                            b4,
                                            0,
                                            j as int,
                                            box_row_3a(m as int, n as int, k as int, i as int),
                                        );
                                    }
                                    j += 1;
                                }
                                proof {
                                    lemma_concat_step(
                                        b3,
                                        0,
                                        i as int,
                                        box_rows_3a(m as int, n as int, k as int),
                                    );
                                }
                                i += 1;
                            }
                            self.push_end();
                        }
                        proof {
                            lemma_concat_step(b2, 1, n as int, boxes_3a(m as int, k as int));
                            assert(self.out@ =~= b2 + concat_range(
                                1,
                                n as int,
                                boxes_3a(m as int, k as int),
                            ) + boxes_3a(m as int, k as int)(n as int));
                        }
                        n += 1;
                    }
                }
                proof {
                    lemma_concat_step(b1, 1, m as int, bands_3a(k as int));
                    assert(self.out@ =~= b1 + concat_range(1, m as int, bands_3a(k as int))
                        + bands_3a(k as int)(m as int));
                }
                m += 1;
            }
            proof {
                lemma_concat_step(b0, 1, k as int, layer_3a());
            }
            k += 1;
        }
    }

    /// Appends, for every value, box and pair of cells of the box, the
    /// clause that the value does not stand in both cells.
    pub fn constraint_3b(&mut self)
        ensures
            final(self).out@ == old(self).out@ + text_3b(),
    {
        let ghost b0 = self.out@;
        let mut k: u32 = 1;
        assert(b0 + concat_range(1, 1, layer_3b()) =~= b0);
        while k < NUM_VARS + 1
            invariant
                1 <= k <= 10,
                self.out@ == b0 + concat_range(1, k as int, layer_3b()),
            decreases 10 - k,
        {
            let ghost b1 = self.out@;
            let mut m: u32 = 1;
            assert(b1 + concat_range(1, 1, bands_3b(k as int)) =~= b1);
            while m < SQUARE_SIZE + 1
                invariant
                    1 <= m <= 10,
                    self.out@ == b1 + concat_range(1, m as int, bands_3b(k as int)),
                decreases 10 - m,
            {
                let ghost b2 = self.out@;
                if m % BOX_SIZE == 1 {
                    let mut n: u32 = 1;
                    assert(b2 + concat_range(1, 1, boxes_3b(m as int, k as int)) =~= b2);
                    while n < SQUARE_SIZE + 1
                        invariant
                            1 <= n <= 10,
                            1 <= m <= 7,
                            self.out@ == b2 + concat_range(
                                1,
                                n as int,
                                boxes_3b(m as int, k as int),
                            ),
                        decreases 10 - n,
                    {
                        if n % BOX_SIZE == 1 {
                            self.box_pairs(m, n, k);
                        }
                        proof {
                            lemma_concat_step(b2, 1, n as int, boxes_3b(m as int, k as int));
                            assert(self.out@ =~= b2 + concat_range(
                                1,
                                n as int,
                                boxes_3b(m as int, k as int),
                            ) + boxes_3b(m as int, k as int)(n as int));
                        }
                        n += 1;
                    }
                }
                proof {
                    lemma_concat_step(b1, 1, m as int, bands_3b(k as int));
                    assert(self.out@ =~= b1 + concat_range(1, m as int, bands_3b(k as int))
                        + bands_3b(k as int)(m as int));
                }
                m += 1;
            }
            proof {
                lemma_concat_step(b0, 1, k as int, layer_3b());
            }
            k += 1;
        }
    }

    /// The positive literals of the cells of the box that starts in row `m`
    /// and column `n`, row by row.
    fn box_tokens(m: u32, n: u32, k: u32) -> (v: Vec<String>)
        requires
            m <= 7,
            n <= 7,
        ensures
            v@.len() == 9,
            forall|idx: int|
                0 <= idx < 9 ==> (#[trigger] v@[idx])@ == box_token(
                    m as int,
                    n as int,
                    k as int,
                    idx,
                ),
    {
        let mut v = Vec::<String>::new();
        let mut i: u32 = 0;
        while i < BOX_SIZE
            invariant
                0 <= i <= 3,
                m <= 7,
                n <= 7,
                v@.len() == 3 * i,
                forall|idx: int|
                    0 <= idx < 3 * i ==> (#[trigger] v@[idx])@ == box_token(
                        m as int,
                        n as int,
                        k as int,
                        idx,
                    ),
            decreases 3 - i,
        {
            let mut j: u32 = 0;
            while j < BOX_SIZE
                invariant
                    0 <= j <= 3,
                    0 <= i < 3,
                    m <= 7,
                    n <= 7,
                    v@.len() == 3 * i + j,
                    forall|idx: int|
                        0 <= idx < 3 * i + j ==> (#[trigger] v@[idx])@ == box_token(
                            m as int,
                            n as int,
                            k as int,
                            idx,
                        ),
                decreases 3 - j,
            {
                let mut t = Mapper::new();
                t.push_pos(m + i, n + j, k);
                proof {
                    let idx = 3 * i + j;
                    assert(idx / 3 == i && idx % 3 == j);
                    assert(t.out@ =~= box_token(m as int, n as int, k as int, idx as int));
                }
                v.push(t.out);
                j += 1;
            }
            i += 1;
        }
        v
    }

    /// Appends the clauses of `constraint_3b` for one box.
    fn box_pairs(&mut self, m: u32, n: u32, k: u32)
        requires
            m <= 7,
            n <= 7,
        ensures
            final(self).out@ == old(self).out@ + concat_range(
                0,
                9,
                pairs_3b(m as int, n as int, k as int),
            ),
    {
        let v = Mapper::box_tokens(m, n, k);
        let ghost b0 = self.out@;
        let mut j: usize = 0;
        assert(b0 + concat_range(0, 0, pairs_3b(m as int, n as int, k as int)) =~= b0);
        proof {
            reveal_strlit(" ");
            reveal_strlit("-");
        }
        while j < v.len()
            invariant
                0 <= j <= 9,
                v@.len() == 9,
                " "@ == seq![' '],
                "-"@ == seq!['-'],
                forall|idx: int|
                    0 <= idx < 9 ==> (#[trigger] v@[idx])@ == box_token(
                        m as int,
                        n as int,
                        k as int,
                        idx,
                    ),
                self.out@ == b0 + concat_range(0, j as int, pairs_3b(m as int, n as int, k as int)),
            decreases 9 - j,
        {
            let ghost b1 = self.out@;
            let mut i: usize = j + 1;
            assert(b1 + concat_range(j + 1, j + 1, pair_3b(m as int, n as int, k as int, j as int))
                =~= b1);
            while i < v.len()
                invariant
                    j + 1 <= i <= 9,
                    0 <= j < 9,
                    v@.len() == 9,
                    " "@ == seq![' '],
                    "-"@ == seq!['-'],
                    forall|idx: int|
                        0 <= idx < 9 ==> (#[trigger] v@[idx])@ == box_token(
                            m as int,
                            n as int,
                            k as int,
                            idx,
                        ),
                    self.out@ == b1 + concat_range(
                        j + 1,
                        i as int,
                        pair_3b(m as int, n as int, k as int, j as int),
                    ),
                decreases 9 - i,
            {
                let ghost b2 = self.out@;
                self.out.append("-");
                self.out.append(v[j].as_str());
                self.out.append(" ");
                self.out.append("-");
                self.out.append(v[i].as_str());
                self.out.append(" ");
                self.push_end();
                proof {
                    assert(self.out@ =~= b2 + pair_3b(m as int, n as int, k as int, j as int)(
                        i as int,
                    ));
                    lemma_concat_step(
                        b1,
                        j + 1,
                        i as int,
                        pair_3b(m as int, n as int, k as int, j as int),
                    );
                }
                i += 1;
            }
            proof {
                lemma_concat_step(b0, 0, j as int, pairs_3b(m as int, n as int, k as int));
            }
            j += 1;
        }
    }

    /// Appends, for every cell, the clause that the cell holds a value.
    pub fn constraint_4(&mut self)
        ensures
            final(self).out@ == old(self).out@ + text_4(),
    {
        let ghost b0 = self.out@;
        let mut i: u32 = 1;
        assert(b0 + concat_range(1, 1, rows_4()) =~= b0);
        while i < SQUARE_SIZE + 1
            invariant
                1 <= i <= 10,
                self.out@ == b0 + concat_range(1, i as int, rows_4()),
            decreases 10 - i,
        {
            let ghost b1 = self.out@;
            let mut j: u32 = 1;
            assert(b1 + concat_range(1, 1, cells_4(i as int)) =~= b1);
            while j < SQUARE_SIZE + 1
                invariant
                    1 <= j <= 10,
                    self.out@ == b1 + concat_range(1, j as int, cells_4(i as int)),
                decreases 10 - j,
            {
                let ghost b2 = self.out@;
                let mut k: u32 = 1;
                assert(b2 + concat_range(1, 1, cell_4(i as int, j as int)) =~= b2);
                while k < SQUARE_SIZE + 1
                    invariant
                        1 <= k <= 10,
                        self.out@ == b2 + concat_range(1, k as int, cell_4(i as int, j as int)),
                    decreases 10 - k,
                {
                    self.push_pos(i, j, k);
                    proof {
                        lemma_concat_step(b2, 1, k as int, cell_4(i as int, j as int));
                    }
                    k += 1;
                }
                self.push_end();
                proof {
                    lemma_concat_step(b1, 1, j as int, cells_4(i as int));
                    assert(self.out@ =~= b1 + concat_range(1, j as int, cells_4(i as int))
                        + cells_4(i as int)(j as int));
                }
                j += 1;
            }
            proof {
                lemma_concat_step(b0, 1, i as int, rows_4());
            }
            i += 1;
        }
    }

    /// Appends, for every cell and pair of values, the clause that the cell
    /// does not hold both values.
    pub fn constraint_5(&mut self)
        ensures
            final(self).out@ == old(self).out@ + text_5(),
    {
        let ghost b0 = self.out@;
        let mut i: u32 = 1;
        assert(b0 + concat_range(1, 1, rows_5()) =~= b0);
        while i < SQUARE_SIZE + 1
            invariant
                1 <= i <= 10,
                self.out@ == b0 + concat_range(1, i as int, rows_5()),
            decreases 10 - i,
        {
            let ghost b1 = self.out@;
            let mut j: u32 = 1;
            assert(b1 + concat_range(1, 1, cells_5(i as int)) =~= b1);
            while j < SQUARE_SIZE + 1
                invariant
                    1 <= j <= 10,
                    self.out@ == b1 + concat_range(1, j as int, cells_5(i as int)),
                decreases 10 - j,
            {
                let ghost b2 = self.out@;
                let mut k: u32 = 1;
                assert(b2 + concat_range(1, 1, pairs_5(i as int, j as int)) =~= b2);
                while k < NUM_VARS + 1
                    invariant
                        1 <= k <= 10,
                        self.out@ == b2 + concat_range(1, k as int, pairs_5(i as int, j as int)),
                    decreases 10 - k,
                {
                    let ghost b3 = self.out@;
                    let mut m: u32 = k + 1;
                    assert(b3 + concat_range(k + 1, k + 1, pair_5(i as int, j as int, k as int))
                        =~= b3);
                    while m < SQUARE_SIZE + 1
                        invariant
                            k + 1 <= m <= 10,
                            self.out@ == b3 + concat_range(
                                k + 1,
                                m as int,
                                pair_5(i as int, j as int, k as int),
                            ),
                        decreases 10 - m,
                    {
                        self.push_pair((i, j, k), (i, j, m));
                        proof {
                            lemma_concat_step(
                                b3,
                                k + 1,
                                m as int,
                                pair_5(i as int, j as int, k as int),
                            );
                        }
                        m += 1;
                    }
                    proof {
                        lemma_concat_step(b2, 1, k as int, pairs_5(i as int, j as int));
                    }
                    k += 1;
                }
                proof {
                    lemma_concat_step(b1, 1, j as int, cells_5(i as int));
                }
                j += 1;
            }
            proof {
                lemma_concat_step(b0, 1, i as int, rows_5());
            }
            i += 1;
        }
    }
}

} // verus!
