//! The candidate grid the solver works on, and its column, row and box
//! views.

use vstd::prelude::*;
use crate::cell::{SolvingCell, is_digit};
use crate::board::Board;

verus! {

/// Column of the `k`-th cell of group `g`: groups `0..9` are the columns,
/// `9..18` the rows and `18..27` the boxes, boxes numbered row by row.
pub open spec fn group_x(g: int, k: int) -> int {
    if g < 9 {
        g
    } else if g < 18 {
        k
    } else {
        ((g - 18) % 3) * 3 + k / 3
    }
}

/// Row of the `k`-th cell of group `g`.
pub open spec fn group_y(g: int, k: int) -> int {
    if g < 9 {
        k
    } else if g < 18 {
        g - 9
    } else {
        ((g - 18) / 3) * 3 + k % 3
    }
}

/// Two cells share a column, a row or a box.
pub open spec fn are_peers(x1: int, y1: int, x2: int, y2: int) -> bool {
    x1 == x2 || y1 == y2 || (x1 / 3 == x2 / 3 && y1 / 3 == y2 / 3)
}

pub open spec fn in_grid(x: int, y: int) -> bool {
    0 <= x < 9 && 0 <= y < 9
}

/// The digit of a cell with one candidate.
pub open spec fn only_value(c: SolvingCell) -> int {
    choose|d: int| is_digit(d) && c.has(d)
}

/// The digits of the cells with one candidate, in order.
pub open spec fn definitive_values(cells: Seq<SolvingCell>) -> Seq<u8>
    decreases cells.len(),
{
    if cells.len() == 0 {
        seq![]
    } else {
        let rest = definitive_values(cells.drop_last());
        if cells.last().size() == 1 {
            rest.push(only_value(cells.last()) as u8)
        } else {
            rest
        }
    }
}

/// A digit is among the definitive values exactly when a cell with one
/// candidate holds it.
pub proof fn lemma_definitive_values(cells: Seq<SolvingCell>)
    ensures
        forall|i: int| 0 <= i < definitive_values(cells).len() ==> is_digit(#[trigger] definitive_values(cells)[i] as int),
        forall|d: int| is_digit(d) ==> (#[trigger] definitive_values(cells).contains(d as u8) <==> exists|k: int|
            0 <= k < cells.len() && (#[trigger] cells[k]).size() == 1 && cells[k].has(d)),
    decreases cells.len(),
{
    if cells.len() > 0 {
        let t = cells.drop_last();
        let c = cells.last();
        lemma_definitive_values(t);
        let rest = definitive_values(t);
        assert forall|k: int| 0 <= k < t.len() implies #[trigger] t[k] == cells[k] by {}
        if c.size() == 1 {
            let v = only_value(c);
            assert(is_digit(v) && c.has(v)) by {
                crate::cell::lemma_flags_set_zero(c.0@);
                let i = choose|i: int| 0 <= i < 9 && c.0@[i];
                assert(is_digit(i + 1) && c.has(i + 1));
            }
            let r = rest.push(v as u8);
            assert forall|d: int| is_digit(d) implies (#[trigger] r.contains(d as u8) <==> exists|k: int|
                0 <= k < cells.len() && (#[trigger] cells[k]).size() == 1 && cells[k].has(d)) by {
                if r.contains(d as u8) {
                    let i = choose|i: int| 0 <= i < r.len() && r[i] == d as u8;
                    if i < rest.len() {
                        assert(rest.contains(d as u8));
                        let k = choose|k: int| 0 <= k < t.len() && (#[trigger] t[k]).size() == 1 && t[k].has(d);
                        assert(cells[k] == t[k]);
                    } else {
                        assert(cells[cells.len() - 1] == c);
                    }
                }
                if exists|k: int| 0 <= k < cells.len() && (#[trigger] cells[k]).size() == 1 && cells[k].has(d) {
                    let k = choose|k: int| 0 <= k < cells.len() && (#[trigger] cells[k]).size() == 1 && cells[k].has(d);
                    if k < t.len() {
                        assert(t[k] == cells[k]);
                        assert(rest.contains(d as u8));
                        let i = choose|i: int| 0 <= i < rest.len() && rest[i] == d as u8;
                        assert(r[i] == d as u8);
                    } else {
                        crate::cell::lemma_flags_set_one(c.0@, d - 1, v - 1);
                        assert(r[r.len() - 1] == d as u8);
                    }
                }
            }
        } else {
            assert forall|d: int| is_digit(d) implies (#[trigger] rest.contains(d as u8) <==> exists|k: int|
                0 <= k < cells.len() && (#[trigger] cells[k]).size() == 1 && cells[k].has(d)) by {
                if exists|k: int| 0 <= k < cells.len() && (#[trigger] cells[k]).size() == 1 && cells[k].has(d) {
                    let k = choose|k: int| 0 <= k < cells.len() && (#[trigger] cells[k]).size() == 1 && cells[k].has(d);
                    assert(k < t.len());
                    assert(t[k] == cells[k]);
                }
            }
        }
    }
}

/// Sum of the candidate counts of a column.
pub open spec fn col_total(s: Seq<SolvingCell>) -> nat
    decreases s.len(),
{
    if s.len() == 0 {
        0
    } else {
        col_total(s.drop_last()) + s.last().size()
    }
}

/// Sum of the candidate counts of a grid.
pub open spec fn grid_total(s: Seq<[SolvingCell; 9]>) -> nat
    decreases s.len(),
{
    if s.len() == 0 {
        0
    } else {
        grid_total(s.drop_last()) + col_total(s.last()@)
    }
}

proof fn lemma_col_total_update(s: Seq<SolvingCell>, i: int, c: SolvingCell)
    requires
        0 <= i < s.len(),
    ensures
        col_total(s.update(i, c)) + s[i].size() == col_total(s) + c.size(),
    decreases s.len(),
{
    let u = s.update(i, c);
    if i == s.len() - 1 {
        assert(u.drop_last() =~= s.drop_last());
    } else {
        assert(u.drop_last() =~= s.drop_last().update(i, c));
        lemma_col_total_update(s.drop_last(), i, c);
    }
}

proof fn lemma_grid_total_update(s: Seq<[SolvingCell; 9]>, i: int, a: [SolvingCell; 9])
    requires
        0 <= i < s.len(),
    ensures
        grid_total(s.update(i, a)) + col_total(s[i]@) == grid_total(s) + col_total(a@),
    decreases s.len(),
{
    let u = s.update(i, a);
    if i == s.len() - 1 {
        assert(u.drop_last() =~= s.drop_last());
    } else {
        assert(u.drop_last() =~= s.drop_last().update(i, a));
        lemma_grid_total_update(s.drop_last(), i, a);
    }
}

/// A group view: `v[i]` lists the cells of group `first + i` with their
/// coordinates, as they are in `b`.
pub open spec fn is_group_view(b: SolvingBoard, v: Seq<Vec<(usize, usize, SolvingCell)>>, first: int) -> bool {
    &&& v.len() == 9
    &&& forall|i: int| 0 <= i < 9 ==> (#[trigger] v[i])@.len() == 9
    &&& forall|i: int, k: int| 0 <= i < 9 && 0 <= k < 9 ==> (#[trigger] v[i]@[k]) == (
        group_x(first + i, k) as usize,
        group_y(first + i, k) as usize,
        b.gcell(first + i, k),
    )
}

/// Group coordinates stay inside the grid.
pub proof fn lemma_group_in_grid()
    ensures
        forall|g: int, k: int| 0 <= g < 27 && 0 <= k < 9 ==> in_grid(#[trigger] group_x(g, k), group_y(g, k)),
{
}

/// What a cell shows once solving stops: its digit if it has one candidate.
pub open spec fn shown(c: SolvingCell) -> Option<u8> {
    if c.size() == 1 {
        Some(only_value(c) as u8)
    } else {
        None
    }
}

/// The grid being solved: each cell holds its remaining candidates.
#[derive(Clone, Copy, Debug)]
pub struct SolvingBoard {
    pub values: [[SolvingCell; 9]; 9],
}

impl SolvingBoard {
    pub open spec fn cell(&self, x: int, y: int) -> SolvingCell {
        self.values[x][y]
    }

    /// The `k`-th cell of group `g`.
    pub open spec fn gcell(&self, g: int, k: int) -> SolvingCell {
        self.cell(group_x(g, k), group_y(g, k))
    }

    /// Sum of the candidate counts of all cells.
    pub open spec fn total(&self) -> nat {
        grid_total(self.values@)
    }

    /// Replaces the cell at column `x`, row `y`.
    pub(crate) fn set_cell(&mut self, x: usize, y: usize, c: SolvingCell)
        requires
            x < 9,
            y < 9,
        ensures
            forall|i: int, j: int| in_grid(i, j) ==> #[trigger] final(self).cell(i, j) == if i == x && j == y {
                c
            } else {
                old(self).cell(i, j)
            },
            final(self).total() + old(self).cell(x as int, y as int).size() == old(self).total() + c.size(),
    {
        let mut col = self.values[x];
        col[y] = c;
        proof {
            lemma_col_total_update(self.values[x as int]@, y as int, c);
            lemma_grid_total_update(self.values@, x as int, col);
        }
        self.values[x] = col;
    }

    /// Two grids with the same cells are the same grid.
    pub(crate) proof fn lemma_same_cells(a: SolvingBoard, b: SolvingBoard)
        requires
            forall|x: int, y: int| in_grid(x, y) ==> #[trigger] a.cell(x, y) == b.cell(x, y),
        ensures
            a == b,
    {
        assert forall|x: int| 0 <= x < 9 implies #[trigger] a.values[x] == b.values[x] by {
            assert forall|y: int| 0 <= y < 9 implies a.values[x][y] == b.values[x][y] by {
                assert(a.cell(x, y) == b.cell(x, y));
            }
            assert(a.values[x] =~= b.values[x]);
        }
        assert(a.values =~= b.values);
    }

    /// Every column with its cells' coordinates.
    pub fn all_cols(&self) -> (r: Vec<Vec<(usize, usize, SolvingCell)>>)
        ensures
            is_group_view(*self, r@, 0),
    {
        let mut r: Vec<Vec<(usize, usize, SolvingCell)>> = Vec::new();
        let mut x: usize = 0;
        while x < 9
            invariant
                x <= 9,
                r@.len() == x,
                forall|i: int| 0 <= i < x ==> (#[trigger] r@[i])@.len() == 9,
                forall|i: int, k: int| 0 <= i < x && 0 <= k < 9 ==> (#[trigger] r@[i]@[k]) == (
                    group_x(i, k) as usize,
                    group_y(i, k) as usize,
                    self.gcell(i, k),
                ),
            decreases 9 - x,
        {
            let mut group: Vec<(usize, usize, SolvingCell)> = Vec::new();
            let mut y: usize = 0;
            while y < 9
                invariant
                    x < 9,
                    y <= 9,
                    group@.len() == y,
                    forall|k: int| 0 <= k < y ==> (#[trigger] group@[k]) == (
                        group_x(x as int, k) as usize,
                        group_y(x as int, k) as usize,
                        self.gcell(x as int, k),
                    ),
                decreases 9 - y,
            {
                group.push((x, y, self.values[x][y]));
                y = y + 1;
            }
            r.push(group);
            x = x + 1;
        }
        r
    }

    /// Every row with its cells' coordinates.
    pub fn all_rows(&self) -> (r: Vec<Vec<(usize, usize, SolvingCell)>>)
        ensures
            is_group_view(*self, r@, 9),
    {
        let mut r: Vec<Vec<(usize, usize, SolvingCell)>> = Vec::new();
        let mut y: usize = 0;
        while y < 9
            invariant
                y <= 9,
                r@.len() == y,
                forall|i: int| 0 <= i < y ==> (#[trigger] r@[i])@.len() == 9,
                forall|i: int, k: int| 0 <= i < y && 0 <= k < 9 ==> (#[trigger] r@[i]@[k]) == (
                    group_x(9 + i, k) as usize,
                    group_y(9 + i, k) as usize,
                    self.gcell(9 + i, k),
                ),
            decreases 9 - y,
        {
            let mut group: Vec<(usize, usize, SolvingCell)> = Vec::new();
            let mut x: usize = 0;
            while x < 9
                invariant
                    y < 9,
                    x <= 9,
                    group@.len() == x,
                    forall|k: int| 0 <= k < x ==> (#[trigger] group@[k]) == (
                        group_x(9 + y, k) as usize,
                        group_y(9 + y, k) as usize,
                        self.gcell(9 + y, k),
                    ),
                decreases 9 - x,
            {
                group.push((x, y, self.values[x][y]));
                x = x + 1;
            }
            r.push(group);
            y = y + 1;
        }
        r
    }

    /// Every box with its cells' coordinates; boxes go row by row, and the
    /// cells of a box column by column.
    pub fn all_squares(&self) -> (r: Vec<Vec<(usize, usize, SolvingCell)>>)
        ensures
            is_group_view(*self, r@, 18),
    {
        let mut r: Vec<Vec<(usize, usize, SolvingCell)>> = Vec::new();
        let mut i: usize = 0;
        while i < 9
            invariant
                i <= 9,
                r@.len() == i,
                forall|j: int| 0 <= j < i ==> (#[trigger] r@[j])@.len() == 9,
                forall|j: int, k: int| 0 <= j < i && 0 <= k < 9 ==> (#[trigger] r@[j]@[k]) == (
                    group_x(18 + j, k) as usize,
                    group_y(18 + j, k) as usize,
                    self.gcell(18 + j, k),
                ),
            decreases 9 - i,
        {
            let square_x = i % 3;
            let square_y = i / 3;
            let mut group: Vec<(usize, usize, SolvingCell)> = Vec::new();
            let mut k: usize = 0;
            while k < 9
                invariant
                    i < 9,
                    square_x == i % 3,
                    square_y == i / 3,
                    k <= 9,
                    group@.len() == k,
                    forall|m: int| 0 <= m < k ==> (#[trigger] group@[m]) == (
                        group_x(18 + i, m) as usize,
                        group_y(18 + i, m) as usize,
                        self.gcell(18 + i, m),
                    ),
                decreases 9 - k,
            {
                let x = square_x * 3 + k / 3;
                let y = square_y * 3 + k % 3;
                group.push((x, y, self.values[x][y]));
                k = k + 1;
            }
            r.push(group);
            i = i + 1;
        }
        r
    }

    /// Each cell holds only candidates that `other` holds in the same place.
    pub open spec fn within(&self, other: SolvingBoard) -> bool {
        forall|x: int, y: int, d: int| in_grid(x, y) && is_digit(d) && #[trigger] self.cell(x, y).has(d) ==> other.cell(x, y).has(d)
    }

    /// Each cell holds only the digit that `board` gives there, if it gives one.
    pub open spec fn within_board(&self, board: Board) -> bool {
        forall|x: int, y: int, d: int| in_grid(x, y) && is_digit(d) && #[trigger] self.cell(x, y).has(d) ==> (board.at(x, y) matches Some(v) ==> d == v)
    }

    /// The cells of group `g`, in order.
    pub open spec fn group(&self, g: int) -> Seq<SolvingCell> {
        Seq::new(9, |k: int| self.cell(group_x(g, k), group_y(g, k)))
    }

    /// The candidates a fixed grid starts from: a given digit alone, or every digit.
    pub open spec fn starts_from(&self, board: Board) -> bool {
        forall|x: int, y: int, d: int| in_grid(x, y) && is_digit(d) ==> (#[trigger] self.cell(x, y).has(d) <==> match board.at(x, y) {
            Some(v) => d == v,
            None => true,
        })
    }

    /// Every cell has one candidate or more.
    pub open spec fn no_empty_cell(&self) -> bool {
        forall|x: int, y: int| in_grid(x, y) ==> #[trigger] self.cell(x, y).size() >= 1
    }

    /// Builds the candidate grid of a fixed grid.
    pub fn from_board(board: Board) -> (r: SolvingBoard)
        requires
            board.wf(),
        ensures
            r.starts_from(board),
    {
        let mut values = [[SolvingCell::full(); 9]; 9];
        let mut x: usize = 0;
        while x < 9
            invariant
                x <= 9,
                board.wf(),
                forall|i: int, y: int, d: int| 0 <= i < x && 0 <= y < 9 && is_digit(d) ==> (#[trigger] values[i][y].has(d) <==> match board.at(i, y) {
                    Some(v) => d == v,
                    None => true,
                }),
            decreases 9 - x,
        {
            let mut col = [SolvingCell::full(); 9];
            let mut y: usize = 0;
            while y < 9
                invariant
                    x < 9,
                    y <= 9,
                    board.wf(),
                    forall|j: int, d: int| 0 <= j < y && is_digit(d) ==> (#[trigger] col[j].has(d) <==> match board.at(x as int, j) {
                        Some(v) => d == v,
                        None => true,
                    }),
                decreases 9 - y,
            {
                assert(board.at(x as int, y as int) matches Some(v) ==> is_digit(v as int));
                col[y] = match board.values[x][y] {
                    Some(v) => SolvingCell::single(v),
                    None => SolvingCell::full(),
                };
                y = y + 1;
            }
            values[x] = col;
            x = x + 1;
        }
        SolvingBoard { values }
    }

    /// Definitive values of column `x`.
    pub fn col(&self, x: usize) -> (r: Vec<u8>)
        requires
            x < 9,
        ensures
            r@ == definitive_values(self.group(x as int)),
    {
        let mut r: Vec<u8> = Vec::new();
        let mut y: usize = 0;
        while y < 9
            invariant
                x < 9,
                y <= 9,
                r@ == definitive_values(self.group(x as int).subrange(0, y as int)),
            decreases 9 - y,
        {
            proof {
                let s = self.group(x as int).subrange(0, y as int + 1);
                assert(s.drop_last() =~= self.group(x as int).subrange(0, y as int));
            }
            let c = self.values[x][y];
            if let Some(v) = c.definitive_value() {
                r.push(v);
            }
            y = y + 1;
        }
        assert(self.group(x as int).subrange(0, 9) =~= self.group(x as int));
        r
    }

    /// Definitive values of row `y`.
    pub fn row(&self, y: usize) -> (r: Vec<u8>)
        requires
            y < 9,
        ensures
            r@ == definitive_values(self.group(9 + y)),
    {
        let mut r: Vec<u8> = Vec::new();
        let mut x: usize = 0;
        while x < 9
            invariant
                y < 9,
                x <= 9,
                r@ == definitive_values(self.group(9 + y).subrange(0, x as int)),
            decreases 9 - x,
        {
            proof {
                let s = self.group(9 + y).subrange(0, x as int + 1);
                assert(s.drop_last() =~= self.group(9 + y).subrange(0, x as int));
            }
            let c = self.values[x][y];
            if let Some(v) = c.definitive_value() {
                r.push(v);
            }
            x = x + 1;
        }
        assert(self.group(9 + y).subrange(0, 9) =~= self.group(9 + y));
        r
    }

    /// Definitive values of the box that holds column `x`, row `y`.
    pub fn square(&self, x: usize, y: usize) -> (r: Vec<u8>)
        requires
            x < 9,
            y < 9,
        ensures
            r@ == definitive_values(self.group(18 + (y / 3) * 3 + x / 3)),
    {
        let g = Ghost(18 + (y / 3) * 3 + x / 3);
        let mut r: Vec<u8> = Vec::new();
        let mut k: usize = 0;
        while k < 9
            invariant
                x < 9,
                y < 9,
                g@ == 18 + (y / 3) * 3 + x / 3,
                k <= 9,
                r@ == definitive_values(self.group(g@).subrange(0, k as int)),
            decreases 9 - k,
        {
            proof {
                let s = self.group(g@).subrange(0, k as int + 1);
                assert(s.drop_last() =~= self.group(g@).subrange(0, k as int));
            }
            let c = self.values[(x / 3) * 3 + k / 3][(y / 3) * 3 + k % 3];
            if let Some(v) = c.definitive_value() {
                r.push(v);
            }
            k = k + 1;
        }
        assert(self.group(g@).subrange(0, 9) =~= self.group(g@));
        r
    }
}

} // verus!
