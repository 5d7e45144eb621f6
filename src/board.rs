//! The grid of optional digits that the user fills in, and what it means
//! for such a grid to be solved.

use vstd::prelude::*;
use crate::cell::is_digit;
use crate::grid::{SolvingBoard, group_x, group_y, are_peers, in_grid, shown};

verus! {

/// The grid as the user sees it: `values[x][y]` is the digit at column `x`,
/// row `y`, if any.
#[derive(Clone, Copy, Debug)]
pub struct Board {
    pub values: [[Option<u8>; 9]; 9],
}

impl Board {
    /// The value at column `x`, row `y`.
    pub open spec fn at(&self, x: int, y: int) -> Option<u8> {
        self.values[x][y]
    }

    /// Every value is what `f` shows in the same place.
    pub open spec fn projects(&self, f: SolvingBoard) -> bool {
        forall|x: int, y: int| in_grid(x, y) ==> #[trigger] self.at(x, y) == shown(f.cell(x, y))
    }

    /// A completed grid: every cell holds a digit, no two peers hold the same
    /// one, and every column, row and box holds every digit.
    pub open spec fn is_solution(&self) -> bool {
        &&& forall|x: int, y: int| in_grid(x, y) ==> (#[trigger] self.at(x, y) matches Some(v) && is_digit(v as int))
        &&& forall|x: int, y: int, x2: int, y2: int|
            in_grid(x, y) && in_grid(x2, y2) && are_peers(x, y, x2, y2) && (x != x2 || y != y2) ==> #[trigger] self.at(x, y)
                != #[trigger] self.at(x2, y2)
        &&& forall|g: int, n: int| 0 <= g < 27 && is_digit(n) ==> #[trigger] self.group_holds(g, n)
    }

    /// Some cell of group `g` holds `n`.
    pub open spec fn group_holds(&self, g: int, n: int) -> bool {
        exists|k: int| 0 <= k < 9 && #[trigger] self.at(group_x(g, k), group_y(g, k)) == Some(n as u8)
    }

    /// `self` holds every digit that `given` holds, in the same place.
    pub open spec fn completes(&self, given: Board) -> bool {
        forall|x: int, y: int| in_grid(x, y) && (#[trigger] given.at(x, y)) is Some ==> self.at(x, y) == given.at(x, y)
    }

    /// What solving leaves: the grid that some settled candidate grid shows.
    pub open spec fn is_propagated(&self) -> bool {
        exists|f: SolvingBoard| f.settled() && #[trigger] self.projects(f)
    }

    /// Two different cells of one column, row or box hold the same digit.
    pub open spec fn has_repeat(&self) -> bool {
        exists|x: int, y: int, x2: int, y2: int|
            in_grid(x, y) && in_grid(x2, y2) && are_peers(x, y, x2, y2) && (x != x2 || y != y2) && (#[trigger] self.at(x, y)) is Some
                && self.at(x, y) == #[trigger] self.at(x2, y2)
    }

    /// Every value present is a digit.
    pub open spec fn wf(&self) -> bool {
        forall|x: int, y: int| in_grid(x, y) ==> (#[trigger] self.at(x, y) matches Some(v) ==> is_digit(v as int))
    }

    /// An empty grid.
    pub fn empty() -> (r: Board)
        ensures
            r.wf(),
            forall|x: int, y: int| in_grid(x, y) ==> #[trigger] r.at(x, y) is None,
    {
        Board { values: [[None; 9]; 9] }
    }

    /// Writes `value` at `coords` (column, row).
    pub fn set(&mut self, coords: (u16, u16), value: Option<u8>)
        requires
            coords.0 < 9,
            coords.1 < 9,
        ensures
            forall|x: int, y: int| in_grid(x, y) ==> #[trigger] final(self).at(x, y) == if x == coords.0 && y
                == coords.1 {
                value
            } else {
                old(self).at(x, y)
            },
    {
        let x = coords.0 as usize;
        let y = coords.1 as usize;
        let mut col = self.values[x];
        col[y] = value;
        self.values[x] = col;
    }

    /// The value at `coords` (column, row).
    pub fn get(&mut self, coords: (u16, u16)) -> (r: Option<u8>)
        requires
            coords.0 < 9,
            coords.1 < 9,
        ensures
            r == old(self).at(coords.0 as int, coords.1 as int),
            *final(self) == *old(self),
    {
        self.values[coords.0 as usize][coords.1 as usize]
    }
}

impl Default for Board {
    fn default() -> (r: Board)
        ensures
            forall|x: int, y: int| in_grid(x, y) ==> #[trigger] r.at(x, y) is None,
    {
        Board::empty()
    }
}

/// A grid from digits written column by column, `0` for an empty cell.
pub fn array_to_board(array: [[u8; 9]; 9]) -> (r: Board)
    ensures
        forall|x: int, y: int| in_grid(x, y) ==> #[trigger] r.at(x, y) == if array[x][y] != 0 {
            Some(array[x][y])
        } else {
            None
        },
{
    let mut r = Board::empty();
    let mut x: usize = 0;
    while x < 9
        invariant
            x <= 9,
            forall|i: int, j: int| 0 <= i < x && 0 <= j < 9 ==> #[trigger] r.at(i, j) == if array[i][j] != 0 {
                Some(array[i][j])
            } else {
                None
            },
        decreases 9 - x,
    {
        let mut y: usize = 0;
        while y < 9
            invariant
                x < 9,
                y <= 9,
                forall|i: int, j: int| (0 <= i < x && 0 <= j < 9 || i == x && 0 <= j < y) ==> #[trigger] r.at(i, j)
                    == if array[i][j] != 0 {
                    Some(array[i][j])
                } else {
                    None
                },
            decreases 9 - y,
        {
            let n = array[x][y];
            r.set((x as u16, y as u16), if n != 0 {
                Some(n)
            } else {
                None
            });
            y = y + 1;
        }
        x = x + 1;
    }
    r
}

/// The digits of a grid column by column, `0` for an empty cell.
pub fn board_to_array(board: Board) -> (r: [[u8; 9]; 9])
    ensures
        forall|x: int, y: int| in_grid(x, y) ==> #[trigger] r[x][y] == match board.at(x, y) {
            Some(v) => v,
            None => 0u8,
        },
{
    let mut r = [[0u8; 9]; 9];
    let mut x: usize = 0;
    while x < 9
        invariant
            x <= 9,
            forall|i: int, j: int| 0 <= i < x && 0 <= j < 9 ==> #[trigger] r[i][j] == match board.at(i, j) {
                Some(v) => v,
                None => 0u8,
            },
        decreases 9 - x,
    {
        let mut col = [0u8; 9];
        let mut y: usize = 0;
        while y < 9
            invariant
                x < 9,
                y <= 9,
                forall|j: int| 0 <= j < y ==> #[trigger] col[j] == match board.at(x as int, j) {
                    Some(v) => v,
                    None => 0u8,
                },
            decreases 9 - y,
        {
            col[y] = match board.values[x][y] {
                Some(v) => v,
                None => 0,
            };
            y = y + 1;
        }
        r[x] = col;
        x = x + 1;
    }
    r
}

} // verus!
