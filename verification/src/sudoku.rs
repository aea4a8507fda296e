//! A Sudoku puzzle as clauses and a model as a grid: reading the lines of a
//! puzzle, placing its entries, finding the grid in a model, and drawing a
//! grid.

use crate::lines::{count_of, parse_count, split_words, words};
use crate::lit::VarValue;
use crate::text::{concat_range, decimal, lemma_concat_step, push_decimal};
use vstd::prelude::*;

verus! {

/// What a line of a puzzle says.
#[derive(Debug, Clone, Copy, PartialEq, Eq, Structural)]
pub enum PuzzleLine {
    /// Nothing: the line is empty or a comment.
    Skip,
    /// A cell and its value, as the number with the digits of row, column
    /// and value.
    Cell(usize),
    /// Nothing that can be read: fewer than three words, or words that make
    /// no number.
    Bad,
}

/// A grid of 9 rows of 9 cells, each empty or with a number.
pub type Grid = Vec<Vec<Option<usize>>>;

/// What a line of a puzzle says: nothing where it is empty or starts with
/// `c`; otherwise the number that its first three words make when written
/// one after the other.
pub open spec fn puzzle_line(s: Seq<u8>) -> PuzzleLine {
    if s.len() == 0 || s[0] == 99 {
        PuzzleLine::Skip
    } else if words(s).len() < 3 {
        PuzzleLine::Bad
    } else {
        match count_of(words(s)[0] + words(s)[1] + words(s)[2]) {
            Some(v) => PuzzleLine::Cell(v as usize),
            None => PuzzleLine::Bad,
        }
    }
}

/// The rows of a grid.
pub open spec fn grid_view(g: Seq<Vec<Option<usize>>>) -> Seq<Seq<Option<usize>>> {
    Seq::new(g.len(), |r: int| g[r]@)
}

/// The grid has 9 rows of 9 cells.
pub open spec fn is_grid(g: Seq<Seq<Option<usize>>>) -> bool {
    g.len() == 9 && forall|r: int| 0 <= r < 9 ==> (#[trigger] g[r]).len() == 9
}

/// The grid of empty cells.
pub open spec fn blank_grid() -> Seq<Seq<Option<usize>>> {
    Seq::new(9, |r: int| Seq::new(9, |c: int| None::<usize>))
}

/// The entry names a row and a column between 1 and 9.
pub open spec fn in_grid(e: usize) -> bool {
    1 <= e / 100 <= 9 && 1 <= (e % 100) / 10 <= 9
}

/// The grid with the first `k` entries placed: an entry with the digits of
/// row, column and value puts the value into the cell. Nothing where one of
/// these entries names no cell of the grid.
pub open spec fn placed(entries: Seq<usize>, k: nat) -> Option<Seq<Seq<Option<usize>>>>
    decreases k,
{
    if k == 0 {
        Some(blank_grid())
    } else {
        match placed(entries, (k - 1) as nat) {
            None => None,
            Some(g) => {
                let e = entries[k - 1];
                if in_grid(e) {
                    Some(
                        g.update(
                            e / 100 - 1,
                            g[e / 100 - 1].update((e % 100) / 10 - 1, Some((e % 10) as usize)),
                        ),
                    )
                } else {
                    None
                }
            },
        }
    }
}

/// The indices below `k` of the values that are true, in increasing order.
pub open spec fn true_vars(model: Seq<VarValue>, k: nat) -> Seq<usize>
    decreases k,
{
    if k == 0 {
        Seq::empty()
    } else if model[k - 1] == VarValue::VTrue {
        true_vars(model, (k - 1) as nat).push((k - 1) as usize)
    } else {
        true_vars(model, (k - 1) as nat)
    }
}

/// The grid whose cells hold, row by row, the last digits of the numbers.
pub open spec fn grid_of(v: Seq<usize>) -> Seq<Seq<Option<usize>>> {
    Seq::new(9, |r: int| Seq::new(9, |c: int| Some((v[r * 9 + c] % 10) as usize)))
}

/// The text of a cell of a drawn grid.
pub open spec fn cell_text(c: Option<usize>) -> Seq<char> {
    "| "@ + (match c {
        Some(v) => decimal(v as nat),
        None => " "@,
    }) + " "@
}

/// The texts of the cells of a row.
pub open spec fn row_cells(row: Seq<Option<usize>>) -> spec_fn(int) -> Seq<char> {
    |c: int| cell_text(row[c])
}

/// The texts of the rows of a grid, each under a line of dashes.
pub open spec fn grid_rows(g: Seq<Seq<Option<usize>>>) -> spec_fn(int) -> Seq<char> {
    |r: int|
        "-------------------------------------\n"@ + concat_range(0, 9, row_cells(g[r])) + "|\n"@
}

/// The drawing of a grid.
pub open spec fn grid_text(g: Seq<Seq<Option<usize>>>) -> Seq<char> {
    concat_range(0, 9, grid_rows(g)) + "-------------------------------------\n"@
}

/// The clause that gives the entry of a puzzle: the number, a blank, and
/// the end of a clause.
pub fn unit_line(code: usize) -> (r: String)
    ensures
        r@ == decimal(code as nat) + " 0\n"@,
{
    let mut r = String::new();
    push_decimal(&mut r, code);
    r.append(" 0\n");
    assert(r@ =~= decimal(code as nat) + " 0\n"@);
    r
}

/// Reads a line of a puzzle (`puzzle_line`).
pub fn read_puzzle_line(line: &[u8]) -> (r: PuzzleLine)
    ensures
        r == puzzle_line(line@),
{
    if line.len() == 0 || line[0] == 99 {
        return PuzzleLine::Skip;
    }
    let ws = split_words(line);
    if ws.len() < 3 {
        return PuzzleLine::Bad;
    }
    let mut all = Vec::<u8>::new();
    let mut k: usize = 0;
    while k < 3
        invariant
            0 <= k <= 3,
            ws@.len() >= 3,
            all@ == (if k == 0 {
                Seq::<u8>::empty()
            } else if k == 1 {
                ws@[0]@
            } else if k == 2 {
                ws@[0]@ + ws@[1]@
            } else {
                ws@[0]@ + ws@[1]@ + ws@[2]@
            }),
        decreases 3 - k,
    {
        let ghost before = all@;
        let w = &ws[k];
        let mut i: usize = 0;
        while i < w.len()
            invariant
                0 <= i <= w@.len(),
                all@ == before + w@.take(i as int),
            decreases w@.len() - i,
        {
            all.push(w[i]);
            proof {
                assert(w@.take(i + 1) =~= w@.take(i as int).push(w@[i as int]));
                assert(all@ =~= before + w@.take(i + 1));
            }
            i += 1;
        }
        proof {
            assert(w@.take(i as int) =~= w@);
            assert(Seq::<u8>::empty() + ws@[0]@ =~= ws@[0]@);
        }
        k += 1;
    }
    match parse_count(all.as_slice()) {
        Some(v) => PuzzleLine::Cell(v),
        None => PuzzleLine::Bad,
    }
}

/// The grid of empty cells.
pub fn new_grid() -> (g: Grid)
    ensures
        grid_view(g@) == blank_grid(),
{
    let mut g = Grid::new();
    let mut r: usize = 0;
    while r < 9
        invariant
            0 <= r <= 9,
            g@.len() == r,
            forall|q: int| 0 <= q < r ==> (#[trigger] g@[q])@ == Seq::new(9, |c: int| None::<usize>),
        decreases 9 - r,
    {
        let mut row = Vec::<Option<usize>>::new();
        let mut c: usize = 0;
        while c < 9
            invariant
                0 <= c <= 9,
                row@.len() == c,
                forall|q: int| 0 <= q < c ==> (#[trigger] row@[q]) is None,
            decreases 9 - c,
        {
            row.push(None);
            c += 1;
        }
        assert(row@ =~= Seq::new(9, |c: int| None::<usize>));
        g.push(row);
        r += 1;
    }
    assert(grid_view(g@) =~= blank_grid());
    g
}

/// `placed` gives a grid of 9 rows of 9 cells.
pub proof fn lemma_placed_grid(entries: Seq<usize>, k: nat)
    ensures
        placed(entries, k) matches Some(g) ==> is_grid(g),
    decreases k,
{
    if k > 0 {
        lemma_placed_grid(entries, (k - 1) as nat);
    }
}

/// Places the entries of a puzzle in a grid (`placed`).
pub fn puzzle_grid(entries: &Vec<usize>) -> (r: Option<Grid>)
    ensures
        match r {
            Some(g) => placed(entries@, entries@.len()) == Some(grid_view(g@)),
            None => placed(entries@, entries@.len()) is None,
        },
{
    let mut g = new_grid();
    let mut k: usize = 0;
    while k < entries.len()
        invariant
            0 <= k <= entries@.len(),
            placed(entries@, k as nat) == Some(grid_view(g@)),
        decreases entries@.len() - k,
    {
        let e = entries[k];
        proof {
            lemma_placed_grid(entries@, k as nat);
        }
        if e / 100 < 1 || e / 100 > 9 || (e % 100) / 10 < 1 || (e % 100) / 10 > 9 {
            proof {
                lemma_none_stays(entries@, (k + 1) as nat, entries@.len());
            }
            return None;
        }
        let row = e / 100 - 1;
        let col = (e % 100) / 10 - 1;
        let ghost before = grid_view(g@);
        assert(g@[row as int]@ == before[row as int]);
        g[row][col] = Some(e % 10);
        proof {
            assert(grid_view(g@) =~= before.update(
                row as int,
                before[row as int].update(col as int, Some((e % 10) as usize)),
            ));
        }
        k += 1;
    }
    Some(g)
}

/// Once an entry names no cell, no grid comes of more entries.
pub proof fn lemma_none_stays(entries: Seq<usize>, k: nat, n: nat)
    requires
        k <= n,
        placed(entries, k) is None,
    ensures
        placed(entries, n) is None,
    decreases n,
{
    if k < n {
        lemma_none_stays(entries, k, (n - 1) as nat);
    }
}

/// The indices below `limit` whose values are true.
pub fn collect_true(model: &[VarValue], limit: usize) -> (v: Vec<usize>)
    requires
        limit <= model@.len(),
    ensures
        v@ == true_vars(model@, limit as nat),
{
    let mut v = Vec::<usize>::new();
    let mut i: usize = 0;
    while i < limit
        invariant
            0 <= i <= limit,
            limit <= model@.len(),
            v@ == true_vars(model@, i as nat),
        decreases limit - i,
    {
        if model[i] == VarValue::VTrue {
            v.push(i);
        }
        i += 1;
    }
    v
}

/// The grid that a model of the clauses of a puzzle shows: of the first 1000
/// variables, those that are true give, in the order of their indices and row
/// by row, the values of the cells by their last digits. Nothing where the
/// model has fewer than 1000 values, or fewer than 81 of them are true.
pub fn model_grid(model: &[VarValue]) -> (r: Option<Grid>)
    ensures
        match r {
            Some(g) => model@.len() >= 1000 && true_vars(model@, 1000).len() >= 81 && grid_view(g@)
                == grid_of(true_vars(model@, 1000)),
            None => model@.len() < 1000 || true_vars(model@, 1000).len() < 81,
        },
{
    if model.len() < 1000 {
        return None;
    }
    let v = collect_true(model, 1000);
    if v.len() < 81 {
        return None;
    }
    let mut g = Grid::new();
    let mut i: usize = 0;
    while i < 9
        invariant
            0 <= i <= 9,
            v@.len() >= 81,
            g@.len() == i,
            forall|q: int| 0 <= q < i ==> (#[trigger] g@[q])@ == grid_of(v@)[q],
        decreases 9 - i,
    {
        let mut row = Vec::<Option<usize>>::new();
        let mut j: usize = 0;
        while j < 9
            invariant
                0 <= j <= 9,
                0 <= i < 9,
                v@.len() >= 81,
                row@.len() == j,
                forall|q: int|
                    0 <= q < j ==> #[trigger] row@[q] == Some((v@[i * 9 + q] % 10) as usize),
            decreases 9 - j,
        {
            row.push(Some(v[i * 9 + j] % 10));
            j += 1;
        }
        assert(row@ =~= grid_of(v@)[i as int]);
        g.push(row);
        i += 1;
    }
    assert(grid_view(g@) =~= grid_of(v@));
    Some(g)
}

/// Draws a grid: each row under a line of dashes, each cell behind a bar
/// and between blanks, an empty cell as a blank; a bar ends the row and a
/// line of dashes the drawing.
pub fn draw_grid(g: &Grid) -> (r: String)
    requires
        is_grid(grid_view(g@)),
    ensures
        r@ == grid_text(grid_view(g@)),
{
    let ghost gv = grid_view(g@);
    let mut r = String::new();
    let mut i: usize = 0;
    assert(r@ =~= r@ + concat_range(0, 0, grid_rows(gv)));
    while i < 9
        invariant
            0 <= i <= 9,
            gv == grid_view(g@),
            is_grid(gv),
            r@ == concat_range(0, i as int, grid_rows(gv)),
        decreases 9 - i,
    {
        let ghost b0 = r@;
        r.append("-------------------------------------\n");
        let ghost b1 = r@;
        let mut j: usize = 0;
        assert(gv[i as int].len() == 9);
        assert(g@[i as int]@ == gv[i as int]);
        assert(b1 + concat_range(0, 0, row_cells(gv[i as int])) =~= b1);
        while j < 9
            invariant
                0 <= j <= 9,
                0 <= i < 9,
                g@.len() == 9,
                g@[i as int]@ == gv[i as int],
                gv[i as int].len() == 9,
                r@ == b1 + concat_range(0, j as int, row_cells(gv[i as int])),
            decreases 9 - j,
        {
            let ghost b2 = r@;
            r.append("| ");
            match g[i][j] {
                Some(v) => {
                    push_decimal(&mut r, v);
                },
                None => {
                    r.append(" ");
                },
            }
            r.append(" ");
            proof {
                assert(r@ =~= b2 + cell_text(gv[i as int][j as int]));
                lemma_concat_step(b1, 0, j as int, row_cells(gv[i as int]));
            }
            j += 1;
        }
        r.append("|\n");
        proof {
            assert(r@ =~= b0 + grid_rows(gv)(i as int));
            lemma_concat_step(Seq::<char>::empty(), 0, i as int, grid_rows(gv));
            assert(r@ =~= concat_range(0, i + 1, grid_rows(gv)));
        }
        i += 1;
    }
    r.append("-------------------------------------\n");
    r
}

} // verus!
