//! Peer elimination, hidden singles, and the loop that applies both until
//! nothing changes.

use vstd::prelude::*;
use crate::cell::{SolvingCell, is_digit};
use crate::board::Board;
use crate::grid::{
    SolvingBoard, group_x, group_y, are_peers, in_grid, only_value, shown, definitive_values, lemma_definitive_values,
    is_group_view, lemma_group_in_grid,
};

verus! {

/// The digit of a cell that holds `v` alone is `v`.
proof fn lemma_only_value(c: SolvingCell, v: int)
    requires
        is_digit(v),
        forall|d: int| is_digit(d) ==> (#[trigger] c.has(d) <==> d == v),
    ensures
        only_value(c) == v,
{
    assert(is_digit(v) && c.has(v));
    let w = only_value(c);
    assert(c.has(w));
}

/// Cells with the same candidates are equal.
proof fn lemma_cell_ext(a: SolvingCell, b: SolvingCell)
    requires
        forall|d: int| is_digit(d) ==> #[trigger] a.has(d) == b.has(d),
    ensures
        a == b,
{
    assert forall|i: int| 0 <= i < 9 implies a.0@[i] == b.0@[i] by {
        assert(a.has(i + 1) == b.has(i + 1));
    }
    assert(a.0 =~= b.0);
}

/// A non-empty cell that allows `v` alone holds `v` alone.
proof fn lemma_nonempty_single(c: SolvingCell, v: int)
    requires
        is_digit(v),
        c.size() >= 1,
        forall|d: int| is_digit(d) && #[trigger] c.has(d) ==> d == v,
    ensures
        c.size() == 1,
        c.has(v),
        only_value(c) == v,
{
    crate::cell::lemma_flags_set_zero(c.0@);
    let i = choose|i: int| 0 <= i < c.0@.len() && c.0@[i];
    assert(c.has(i + 1));
    assert forall|j: int| 0 <= j < 9 implies (c.0@[j] <==> j == v - 1) by {
        if c.0@[j] {
            assert(c.has(j + 1));
        }
    }
    crate::cell::lemma_flags_set_single(c.0@, v - 1);
    lemma_only_value(c, v);
}

/// Removes every digit of `nums` from `cell`.
fn eliminate_all(cell: &mut SolvingCell, nums: &Vec<u8>)
    requires
        forall|i: int| 0 <= i < nums@.len() ==> is_digit(#[trigger] nums@[i] as int),
    ensures
        forall|d: int| is_digit(d) ==> (#[trigger] final(cell).has(d) <==> old(cell).has(d) && !nums@.contains(d as u8)),
        *final(cell) == *old(cell) || final(cell).size() < old(cell).size(),
{
    let mut i: usize = 0;
    while i < nums.len()
        invariant
            i <= nums@.len(),
            forall|k: int| 0 <= k < nums@.len() ==> is_digit(#[trigger] nums@[k] as int),
            forall|d: int| is_digit(d) ==> (#[trigger] cell.has(d) <==> old(cell).has(d) && !nums@.subrange(0, i as int).contains(d as u8)),
            *cell == *old(cell) || cell.size() < old(cell).size(),
        decreases nums@.len() - i,
    {
        let ghost before = *cell;
        let n = nums[i];
        cell.eliminate(n);
        proof {
            if !before.has(n as int) {
                assert(cell.0 =~= before.0);
            }
            assert forall|d: int| is_digit(d) implies (#[trigger] cell.has(d) <==> old(cell).has(d) && !nums@.subrange(0, i as int + 1).contains(d as u8)) by {
                let s = nums@.subrange(0, i as int + 1);
                assert(s =~= nums@.subrange(0, i as int).push(n));
                if nums@.subrange(0, i as int).contains(d as u8) {
                    let j = choose|j: int| 0 <= j < i && nums@.subrange(0, i as int)[j] == d as u8;
                    assert(s[j] == d as u8);
                }
                if s.contains(d as u8) && d != n {
                    let j = choose|j: int| 0 <= j < i + 1 && s[j] == d as u8;
                    assert(nums@.subrange(0, i as int)[j] == d as u8);
                }
                if d == n {
                    assert(s[i as int] == n);
                }
            }
        }
        i = i + 1;
    }
    assert(nums@.subrange(0, nums@.len() as int) =~= nums@);
}

impl Board {
    /// Deduces what peer elimination and hidden singles allow, repeating
    /// passes of both until a pass changes nothing. On success each cell left
    /// with one candidate shows it and the others are empty; on a cell without
    /// candidates, or two peers holding the same digit, the grid is left as it
    /// was and `Err` comes back.
    ///
    /// A grid that some solution completes always succeeds, and every digit
    /// placed agrees with every such solution. Given digits are kept. A grid
    /// with a repeated digit in a column, row or box fails. What comes back is
    /// shown by a candidate grid within the input that neither technique can
    /// narrow, and solving it again changes nothing.
    pub fn solve(&mut self) -> (r: Result<(), ()>)
        requires
            old(self).wf(),
        ensures
            r is Err ==> *final(self) == *old(self),
            (exists|sol: Board| sol.is_solution() && #[trigger] sol.completes(*old(self))) ==> r is Ok,
            r is Ok ==> forall|sol: Board| sol.is_solution() && #[trigger] sol.completes(*old(self)) ==> sol.completes(*final(self)),
            old(self).has_repeat() ==> r is Err,
            r is Ok ==> final(self).wf(),
            r is Ok ==> forall|x: int, y: int| in_grid(x, y) && (#[trigger] old(self).at(x, y)) is Some ==> final(self).at(x, y) == old(self).at(x, y),
            r is Ok ==> exists|f: SolvingBoard| f.within_board(*old(self)) && f.settled() && #[trigger] final(self).projects(f),
            r is Ok ==> final(self).is_propagated(),
            old(self).is_propagated() ==> r is Ok && *final(self) == *old(self),
    {
        let mut board = SolvingBoard::from_board(*self);
        proof {
            assert forall|x: int, y: int| in_grid(x, y) implies #[trigger] board.cell(x, y).size() >= 1 by {
                let d: int = match self.at(x, y) {
                    Some(v) => v as int,
                    None => 1,
                };
                assert(board.cell(x, y).has(d));
                crate::cell::lemma_flags_set_zero(board.cell(x, y).0@);
                assert(board.cell(x, y).0@[d - 1]);
            }
        }
        proof {
            assert forall|sol: Board| sol.is_solution() && #[trigger] sol.completes(*self) implies board.admits(sol) by {
                assert forall|x: int, y: int| in_grid(x, y) implies #[trigger] board.cell(x, y).has(sol.at(x, y)->Some_0 as int) by {
                    assert(sol.at(x, y) matches Some(w) && is_digit(w as int));
                    if self.at(x, y) is Some {
                        assert(sol.at(x, y) == self.at(x, y));
                    }
                }
            }
        }
        let ghost given = *self;
        let ghost tgt = choose|f: SolvingBoard| f.settled() && #[trigger] given.projects(f);
        proof {
            assert forall|x: int, y: int, d: int|
                in_grid(x, y) && is_digit(d) && board.cell(x, y).size() != 1 && !#[trigger] board.cell(x, y).has(d)
                    implies board.placed_near(x, y, d) by {
                let v = self.at(x, y)->Some_0;
                assert(self.at(x, y) matches Some(w) && is_digit(w as int));
                assert forall|k: int| 0 <= k < 9 implies (board.cell(x, y).0@[k] <==> k == v - 1) by {
                    assert(board.cell(x, y).has(k + 1) == (k + 1 == v));
                }
                crate::cell::lemma_flags_set_single(board.cell(x, y).0@, v - 1);
            }
            if given.is_propagated() {
                assert forall|x: int, y: int| in_grid(x, y) implies if (#[trigger] tgt.cell(x, y)).size() == 1 {
                    board.cell(x, y) == tgt.cell(x, y)
                } else {
                    forall|d: int| is_digit(d) ==> #[trigger] board.cell(x, y).has(d)
                } by {
                    let c = tgt.cell(x, y);
                    assert(given.at(x, y) == shown(c));
                    if c.size() == 1 {
                        let v = only_value(c);
                        crate::cell::lemma_flags_set_zero(c.0@);
                        let i = choose|i: int| 0 <= i < c.0@.len() && c.0@[i];
                        assert(is_digit(i + 1) && c.has(i + 1));
                        assert forall|d: int| is_digit(d) implies #[trigger] board.cell(x, y).has(d) == c.has(d) by {
                            if c.has(d) {
                                crate::cell::lemma_flags_set_one(c.0@, d - 1, v - 1);
                            }
                        }
                        lemma_cell_ext(board.cell(x, y), c);
                    }
                }
            }
        }
        let mut board_changed = true;
        while board_changed
            invariant
                self.wf(),
                *self == given,
                board.tight(),
                given.is_propagated() ==> tgt.settled() && given.projects(tgt),
                given.is_propagated() ==> board == tgt || board_changed && board.seeded_by(tgt),
                board.within_board(*self),
                board.no_empty_cell(),
                forall|sol: Board| sol.is_solution() && #[trigger] sol.completes(*self) ==> board.admits(sol),
                !board_changed ==> board.peer_closed() && board.hidden_closed() && board.clash_free(),
            decreases board.total() + if board_changed {
                1int
            } else {
                0int
            },
        {
            board_changed = false;
            let ghost start = board;
            match board.eliminate_placed(Ghost(tgt)) {
                Ok(c) => {
                    if c {
                        board_changed = true;
                    }
                },
                Err(()) => {
                    return Err(());
                },
            }
            let ghost middle = board;
            match board.place_hidden_singles() {
                Ok(c) => {
                    if c {
                        board_changed = true;
                    }
                },
                Err(()) => {
                    return Err(());
                },
            }
            proof {
                if !board_changed {
                    assert(middle == start);
                    assert(board == middle);
                }
            }
        }
        let ghost fin = board;
        let mut x: usize = 0;
        while x < 9
            invariant
                x <= 9,
                board == fin,
                fin.within_board(given),
                fin.no_empty_cell(),
                given.wf(),
                fin.settled(),
                given.is_propagated() ==> fin == tgt && given.projects(tgt),
                forall|i: int, j: int| 0 <= i < x && 0 <= j < 9 ==> #[trigger] self.at(i, j) == shown(fin.cell(i, j)),
                forall|sol: Board| sol.is_solution() && #[trigger] sol.completes(given) ==> fin.admits(sol),
            decreases 9 - x,
        {
            let mut y: usize = 0;
            while y < 9
                invariant
                    x < 9,
                    y <= 9,
                    board == fin,
                    forall|i: int, j: int| (0 <= i < x && 0 <= j < 9 || i == x && 0 <= j < y) ==> #[trigger] self.at(i, j)
                        == shown(fin.cell(i, j)),
                decreases 9 - y,
            {
                let v = board.values[x][y].definitive_value();
                proof {
                    if let Some(w) = v {
                        lemma_only_value(fin.cell(x as int, y as int), w as int);
                    }
                }
                self.set((x as u16, y as u16), v);
                y = y + 1;
            }
            x = x + 1;
        }
        proof {
            assert forall|x: int, y: int| in_grid(x, y) implies #[trigger] self.at(x, y) matches Some(v) ==> is_digit(v as int) by {
                let c = fin.cell(x, y);
                if c.size() == 1 {
                    crate::cell::lemma_flags_set_zero(c.0@);
                    let i = choose|i: int| 0 <= i < c.0@.len() && c.0@[i];
                    assert(is_digit(i + 1) && c.has(i + 1));
                }
            }
            assert forall|x: int, y: int| in_grid(x, y) && (#[trigger] given.at(x, y)) is Some implies self.at(x, y) == given.at(x, y) by {
                let v = given.at(x, y)->Some_0;
                lemma_nonempty_single(fin.cell(x, y), v as int);
            }
            assert forall|sol: Board| sol.is_solution() && #[trigger] sol.completes(given) implies sol.completes(*self) by {
                assert forall|x: int, y: int| in_grid(x, y) && (#[trigger] self.at(x, y)) is Some implies sol.at(x, y) == self.at(x, y) by {
                    let c = fin.cell(x, y);
                    let a = sol.at(x, y)->Some_0;
                    assert(sol.at(x, y) matches Some(w) && is_digit(w as int));
                    assert(c.has(a as int));
                    assert(c.size() == 1);
                    crate::cell::lemma_flags_set_zero(c.0@);
                    let i = choose|i: int| 0 <= i < c.0@.len() && c.0@[i];
                    assert(is_digit(i + 1) && c.has(i + 1));
                    crate::cell::lemma_flags_set_one(c.0@, a - 1, only_value(c) - 1);
                }
            }
            assert(self.projects(fin));
            if given.is_propagated() {
                assert forall|x: int| 0 <= x < 9 implies #[trigger] self.values[x] == given.values[x] by {
                    assert forall|y: int| 0 <= y < 9 implies self.values[x][y] == given.values[x][y] by {
                        assert(self.at(x, y) == given.at(x, y));
                    }
                    assert(self.values[x] =~= given.values[x]);
                }
                assert(self.values =~= given.values);
            }
            if given.has_repeat() {
                let (x, y, x2, y2) = choose|x: int, y: int, x2: int, y2: int|
                    in_grid(x, y) && in_grid(x2, y2) && are_peers(x, y, x2, y2) && (x != x2 || y != y2) && (#[trigger] given.at(x, y)) is Some
                        && given.at(x, y) == #[trigger] given.at(x2, y2);
                let v = given.at(x, y)->Some_0;
                lemma_nonempty_single(fin.cell(x, y), v as int);
                lemma_nonempty_single(fin.cell(x2, y2), v as int);
                assert(fin.cell(x, y).has(v as int) && fin.cell(x2, y2).has(v as int));
            }
        }
        Ok(())
    }

}

impl SolvingBoard {
    /// Peers of (x, y) that hold one candidate put it in the column, row or
    /// box values of (x, y).
    proof fn lemma_peer_in_views(&self, x: int, y: int, x2: int, y2: int, d: int)
        requires
            in_grid(x, y),
            in_grid(x2, y2),
            is_digit(d),
            are_peers(x, y, x2, y2),
            self.cell(x2, y2).size() == 1,
            self.cell(x2, y2).has(d),
        ensures
            definitive_values(self.group(x)).contains(d as u8) || definitive_values(self.group(9 + y)).contains(
                d as u8,
            ) || definitive_values(self.group(18 + (y / 3) * 3 + x / 3)).contains(d as u8),
    {
        if x2 == x {
            lemma_definitive_values(self.group(x));
            assert(self.group(x)[y2] == self.cell(x2, y2));
        } else if y2 == y {
            lemma_definitive_values(self.group(9 + y));
            assert(self.group(9 + y)[x2] == self.cell(x2, y2));
        } else {
            let g = 18 + (y / 3) * 3 + x / 3;
            let k = (x2 % 3) * 3 + y2 % 3;
            assert(group_x(g, k) == x2);
            assert(group_y(g, k) == y2);
            lemma_definitive_values(self.group(g));
            assert(self.group(g)[k] == self.cell(x2, y2));
        }
    }

    /// Removes from every cell with several candidates the digits its peers
    /// already hold alone; `Ok(true)` when a cell lost a candidate, `Err`
    /// when a cell lost them all or two peers hold the same single digit.
    fn eliminate_placed(&mut self, target: Ghost<SolvingBoard>) -> (r: Result<bool, ()>)
        requires
            old(self).no_empty_cell(),
            old(self).tight(),
        ensures
            r is Ok ==> final(self).tight(),
            old(self).peer_closed() && old(self).clash_free() ==> r == Ok::<bool, ()>(false),
            target@.settled() && old(self).seeded_by(target@) ==> r is Ok && *final(self) == target@,
            r matches Ok(changed) ==> {
                &&& final(self).within(*old(self))
                &&& final(self).no_empty_cell()
                &&& final(self).total() <= old(self).total()
                &&& changed ==> final(self).total() < old(self).total()
                &&& !changed ==> *final(self) == *old(self) && old(self).peer_closed() && old(self).clash_free()
            },
            forall|sol: Board| sol.is_solution() && #[trigger] old(self).admits(sol) ==> r is Ok && final(self).admits(sol),
    {
        let ghost start = *self;
        let mut changed = false;
        let mut x: usize = 0;
        while x < 9
            invariant
                x <= 9,
                self.within(start),
                start == *old(self),
                forall|sol: Board| sol.is_solution() && #[trigger] start.admits(sol) ==> self.admits(sol),
                self.no_empty_cell(),
                self.tight(),
                start.peer_closed() && start.clash_free() ==> !changed,
                target@.settled() && start.seeded_by(target@) ==> forall|i: int, j: int|
                    in_grid(i, j) ==> #[trigger] self.cell(i, j) == if i < x {
                        target@.cell(i, j)
                    } else {
                        start.cell(i, j)
                    },
                self.total() <= start.total(),
                changed ==> self.total() < start.total(),
                !changed ==> *self == start,
                !changed ==> forall|i: int, j: int, i2: int, j2: int, d: int|
                    #![trigger start.cell(i, j).has(d), start.cell(i2, j2).has(d)]
                    0 <= i < x && 0 <= j < 9 && in_grid(i2, j2) && is_digit(d) && are_peers(i, j, i2, j2)
                        && start.cell(i, j).size() > 1 && start.cell(i2, j2).size() == 1 && start.cell(i2, j2).has(d)
                        ==> !start.cell(i, j).has(d),
                !changed ==> forall|i: int, j: int, i2: int, j2: int, d: int|
                    #![trigger start.cell(i, j).has(d), start.cell(i2, j2).has(d)]
                    0 <= i < x && 0 <= j < 9 && in_grid(i2, j2) && is_digit(d) && are_peers(i, j, i2, j2) && (i != i2
                        || j != j2) && start.cell(i, j).size() == 1 && start.cell(i2, j2).size() == 1 && start.cell(i, j).has(d)
                        ==> !start.cell(i2, j2).has(d),
            decreases 9 - x,
        {
            let mut y: usize = 0;
            while y < 9
                invariant
                    x < 9,
                    y <= 9,
                    self.within(start),
                    start == *old(self),
                    forall|sol: Board| sol.is_solution() && #[trigger] start.admits(sol) ==> self.admits(sol),
                    self.no_empty_cell(),
                    self.tight(),
                    start.peer_closed() && start.clash_free() ==> !changed,
                    target@.settled() && start.seeded_by(target@) ==> forall|i: int, j: int|
                        in_grid(i, j) ==> #[trigger] self.cell(i, j) == if i < x || i == x && j < y {
                            target@.cell(i, j)
                        } else {
                            start.cell(i, j)
                        },
                    self.total() <= start.total(),
                    changed ==> self.total() < start.total(),
                    !changed ==> *self == start,
                    !changed ==> forall|i: int, j: int, i2: int, j2: int, d: int|
                        #![trigger start.cell(i, j).has(d), start.cell(i2, j2).has(d)]
                        (0 <= i < x && 0 <= j < 9 || i == x && 0 <= j < y) && in_grid(i2, j2) && is_digit(d)
                            && are_peers(i, j, i2, j2) && start.cell(i, j).size() > 1 && start.cell(i2, j2).size() == 1
                            && start.cell(i2, j2).has(d) ==> !start.cell(i, j).has(d),
                    !changed ==> forall|i: int, j: int, i2: int, j2: int, d: int|
                        #![trigger start.cell(i, j).has(d), start.cell(i2, j2).has(d)]
                        (0 <= i < x && 0 <= j < 9 || i == x && 0 <= j < y) && in_grid(i2, j2) && is_digit(d)
                            && are_peers(i, j, i2, j2) && (i != i2 || j != j2) && start.cell(i, j).size() == 1
                            && start.cell(i2, j2).size() == 1 && start.cell(i, j).has(d) ==> !start.cell(i2, j2).has(d),
                decreases 9 - y,
            {
                let old_count = self.values[x][y].count();
                if old_count > 1 {
                    let col = self.col(x);
                    let row = self.row(y);
                    let square = self.square(x, y);
                    proof {
                        lemma_definitive_values(self.group(x as int));
                        lemma_definitive_values(self.group(9 + y));
                        lemma_definitive_values(self.group(18 + (y / 3) * 3 + x / 3));
                    }
                    let ghost before = *self;
                    let mut candidates = self.values[x][y];
                    eliminate_all(&mut candidates, &col);
                    eliminate_all(&mut candidates, &row);
                    eliminate_all(&mut candidates, &square);
                    proof {
                        assert forall|sol: Board| sol.is_solution() && #[trigger] start.admits(sol) implies candidates.has(
                            sol.at(x as int, y as int)->Some_0 as int,
                        ) by {
                            before.lemma_solution_not_in_views(sol, x as int, y as int);
                            assert(before.cell(x as int, y as int).has(sol.at(x as int, y as int)->Some_0 as int));
                            assert(sol.at(x as int, y as int) matches Some(w) && is_digit(w as int));
                        }
                    }
                    proof {
                        let c = before.cell(x as int, y as int);
                        assert forall|d: int| is_digit(d) implies (#[trigger] candidates.has(d) <==> c.has(d)
                            && !before.placed_near(x as int, y as int, d)) by {
                            before.lemma_views_are_near(x as int, y as int, d);
                        }
                        if start.peer_closed() && start.clash_free() {
                            assert forall|d: int| is_digit(d) implies #[trigger] candidates.has(d) == c.has(d) by {
                                if c.has(d) && before.placed_near(x as int, y as int, d) {
                                    let (x2, y2) = choose|x2: int, y2: int|
                                        in_grid(x2, y2) && are_peers(x as int, y as int, x2, y2) && (x2 != x || y2 != y) && (
                                        #[trigger] before.cell(x2, y2)).size() == 1 && before.cell(x2, y2).has(d);
                                    assert(start.cell(x2, y2).has(d));
                                }
                            }
                            lemma_cell_ext(candidates, c);
                        }
                        if target@.settled() && start.seeded_by(target@) {
                            let f = target@;
                            assert forall|i: int, j: int| in_grid(i, j) implies ((#[trigger] before.cell(i, j)).size() == 1
                                <==> f.cell(i, j).size() == 1) && (before.cell(i, j).size() == 1 ==> before.cell(i, j)
                                == f.cell(i, j)) by {
                                if !(i < x || i == x && j < y) && f.cell(i, j).size() != 1 {
                                    assert forall|k: int| 0 <= k < 9 implies before.cell(i, j).0@[k] by {
                                        assert(before.cell(i, j).has(k + 1));
                                    }
                                    crate::cell::lemma_flags_set_all(before.cell(i, j).0@);
                                }
                            }
                            assert forall|d: int| is_digit(d) implies #[trigger] candidates.has(d) == f.cell(x as int, y as int).has(d) by {
                                before.lemma_same_singles_near(f, x as int, y as int, d);
                                assert(c.has(d));
                                assert(f.cell(x as int, y as int).size() > 1);
                            }
                            lemma_cell_ext(candidates, f.cell(x as int, y as int));
                        }
                    }
                    if candidates.is_invalid() {
                        proof {
                            assert forall|sol: Board| sol.is_solution() && #[trigger] start.admits(sol) implies false by {
                                assert(sol.at(x as int, y as int) matches Some(w) && is_digit(w as int));
                                assert(candidates.has(sol.at(x as int, y as int)->Some_0 as int));
                            }
                        }
                        return Err(());
                    }
                    let new_count = candidates.count();
                    self.set_cell(x, y, candidates);
                    if new_count < old_count {
                        changed = true;
                    }
                    proof {
                        SolvingBoard::lemma_near_kept(before, *self, x as int, y as int);
                        assert forall|i: int, j: int, d: int|
                            in_grid(i, j) && is_digit(d) && self.cell(i, j).size() != 1 && !#[trigger] self.cell(i, j).has(d)
                                implies self.placed_near(i, j, d) by {
                            if i == x && j == y {
                                assert(before.placed_near(i, j, d));
                            } else {
                                assert(before.cell(i, j) == self.cell(i, j));
                                assert(before.placed_near(i, j, d));
                            }
                        }
                        if !changed {
                            assert(candidates == before.cell(x as int, y as int));
                            SolvingBoard::lemma_same_cells(*self, before);
                            assert forall|i2: int, j2: int, d: int|
                                #![trigger start.cell(x as int, y as int).has(d), start.cell(i2, j2).has(d)]
                                in_grid(i2, j2) && is_digit(d) && are_peers(x as int, y as int, i2, j2)
                                    && start.cell(i2, j2).size() == 1 && start.cell(i2, j2).has(d)
                                    implies !start.cell(x as int, y as int).has(d) by {
                                before.lemma_peer_in_views(x as int, y as int, i2, j2, d);
                            }
                        }
                    }
                } else if let Some(v) = self.values[x][y].definitive_value() {
                    if self.clashes(x, y, v) {
                        proof {
                            assert forall|sol: Board| sol.is_solution() && #[trigger] start.admits(sol) implies false by {
                                let (i, j) = choose|i: int, j: int|
                                    in_grid(i, j) && are_peers(x as int, y as int, i, j) && (i != x || j != y) && (
                                    #[trigger] self.cell(i, j)).size() == 1 && self.cell(i, j).has(v as int);
                                let c = self.cell(x as int, y as int);
                                let a = sol.at(x as int, y as int)->Some_0;
                                let b = sol.at(i, j)->Some_0;
                                assert(sol.at(x as int, y as int) matches Some(w) && is_digit(w as int));
                                assert(sol.at(i, j) matches Some(w) && is_digit(w as int));
                                assert(c.has(a as int));
                                assert(self.cell(i, j).has(b as int));
                                crate::cell::lemma_flags_set_one(c.0@, a - 1, v - 1);
                                crate::cell::lemma_flags_set_one(self.cell(i, j).0@, b - 1, v - 1);
                                assert(sol.at(x as int, y as int) != sol.at(i, j));
                            }
                            let (i, j) = choose|i: int, j: int|
                                in_grid(i, j) && are_peers(x as int, y as int, i, j) && (i != x || j != y) && (
                                #[trigger] self.cell(i, j)).size() == 1 && self.cell(i, j).has(v as int);
                            let c = self.cell(x as int, y as int);
                            assert(c.has(v as int) && self.cell(i, j).has(v as int));
                            if target@.settled() && start.seeded_by(target@) {
                                let f = target@;
                                if f.cell(x as int, y as int).size() != 1 {
                                    assert forall|k: int| 0 <= k < 9 implies c.0@[k] by {
                                        assert(c.has(k + 1));
                                    }
                                    crate::cell::lemma_flags_set_all(c.0@);
                                }
                                assert(f.cell(x as int, y as int) == c);
                                if f.cell(i, j).size() != 1 {
                                    assert forall|k: int| 0 <= k < 9 implies self.cell(i, j).0@[k] by {
                                        assert(self.cell(i, j).has(k + 1));
                                    }
                                    crate::cell::lemma_flags_set_all(self.cell(i, j).0@);
                                }
                                assert(f.cell(i, j) == self.cell(i, j));
                                assert(f.cell(x as int, y as int).has(v as int) && f.cell(i, j).has(v as int));
                            }
                        }
                        return Err(());
                    }
                    proof {
                        let c = self.cell(x as int, y as int);
                        assert forall|d: int| is_digit(d) && c.has(d) implies d == v by {
                            crate::cell::lemma_flags_set_one(c.0@, d - 1, v - 1);
                        }
                        if target@.settled() && start.seeded_by(target@) {
                            let f = target@;
                            if f.cell(x as int, y as int).size() != 1 {
                                assert forall|k: int| 0 <= k < 9 implies c.0@[k] by {
                                    assert(c.has(k + 1));
                                }
                                crate::cell::lemma_flags_set_all(c.0@);
                            }
                        }
                    }
                }
                y = y + 1;
            }
            x = x + 1;
        }
        proof {
            if target@.settled() && start.seeded_by(target@) {
                SolvingBoard::lemma_same_cells(*self, target@);
            }
        }
        Ok(changed)
    }

    /// For each digit and each column, row and box (in that order) of a
    /// snapshot taken on entry: where one cell alone can hold the digit, leaves
    /// it as that cell's only candidate. `Ok(true)` when a cell was narrowed.
    fn place_hidden_singles(&mut self) -> (r: Result<bool, ()>)
        requires
            old(self).no_empty_cell(),
            old(self).tight(),
        ensures
            r is Ok ==> final(self).tight(),
            old(self).hidden_closed() ==> r == Ok::<bool, ()>(false),
            r matches Ok(changed) ==> {
                &&& final(self).within(*old(self))
                &&& final(self).no_empty_cell()
                &&& final(self).total() <= old(self).total()
                &&& changed ==> final(self).total() < old(self).total()
                &&& !changed ==> *final(self) == *old(self) && old(self).hidden_closed()
            },
            forall|sol: Board| sol.is_solution() && #[trigger] old(self).admits(sol) ==> r is Ok && final(self).admits(sol),
    {
        let cols = self.all_cols();
        let rows = self.all_rows();
        let squares = self.all_squares();
        let ghost snap = *self;
        proof {
            lemma_group_in_grid();
        }
        let mut changed = false;
        let mut n: u8 = 1;
        while n < 10
            invariant
                1 <= n <= 10,
                is_group_view(snap, cols@, 0),
                is_group_view(snap, rows@, 9),
                is_group_view(snap, squares@, 18),
                self.within(snap),
                snap == *old(self),
                forall|sol: Board| sol.is_solution() && #[trigger] snap.admits(sol) ==> self.admits(sol),
                self.no_empty_cell(),
                self.tight(),
                snap.hidden_closed() ==> !changed,
                self.total() <= snap.total(),
                changed ==> self.total() < snap.total(),
                !changed ==> *self == snap,
                forall|i: int, j: int| in_grid(i, j) ==> #[trigger] self.cell(i, j) == snap.cell(i, j) || self.cell(i, j).size() == 1,
                forall|g: int, k: int| 0 <= g < 27 && 0 <= k < 9 ==> in_grid(#[trigger] group_x(g, k), group_y(g, k)),
                !changed ==> forall|g: int, k: int, m: int|
                    1 <= m < n && 0 <= g < 27 && 0 <= k < 9 && #[trigger] snap.gcell(g, k).has(m) && (forall|k2: int|
                        0 <= k2 < 9 && k2 != k ==> !(#[trigger] snap.gcell(g, k2)).has(m)) ==> snap.gcell(g, k).size() == 1,
            decreases 10 - n,
        {
            let mut gi: usize = 0;
            while gi < 27
                invariant
                    1 <= n < 10,
                    gi <= 27,
                    is_group_view(snap, cols@, 0),
                    is_group_view(snap, rows@, 9),
                    is_group_view(snap, squares@, 18),
                    self.within(snap),
                    snap == *old(self),
                    forall|sol: Board| sol.is_solution() && #[trigger] snap.admits(sol) ==> self.admits(sol),
                snap == *old(self),
                forall|sol: Board| sol.is_solution() && #[trigger] snap.admits(sol) ==> self.admits(sol),
                    self.no_empty_cell(),
                    self.tight(),
                    snap.hidden_closed() ==> !changed,
                self.tight(),
                snap.hidden_closed() ==> !changed,
                    self.total() <= snap.total(),
                    changed ==> self.total() < snap.total(),
                    !changed ==> *self == snap,
                    forall|i: int, j: int| in_grid(i, j) ==> #[trigger] self.cell(i, j) == snap.cell(i, j) || self.cell(i, j).size() == 1,
                    forall|g: int, k: int| 0 <= g < 27 && 0 <= k < 9 ==> in_grid(#[trigger] group_x(g, k), group_y(g, k)),
                    !changed ==> forall|g: int, k: int, m: int|
                        (1 <= m < n && 0 <= g < 27 || m == n && 0 <= g < gi) && 0 <= k < 9 && #[trigger] snap.gcell(g, k).has(m)
                            && (forall|k2: int| 0 <= k2 < 9 && k2 != k ==> !(#[trigger] snap.gcell(g, k2)).has(m))
                            ==> snap.gcell(g, k).size() == 1,
                decreases 27 - gi,
            {
                let group = if gi < 9 {
                    &cols[gi]
                } else if gi < 18 {
                    &rows[gi - 9]
                } else {
                    &squares[gi - 18]
                };
                assert(group@.len() == 9);
                assert(forall|k: int| 0 <= k < 9 ==> #[trigger] group@[k] == (
                    group_x(gi as int, k) as usize,
                    group_y(gi as int, k) as usize,
                    snap.gcell(gi as int, k),
                ));
                let mut found: Option<usize> = None;
                let mut multiple = false;
                let mut k: usize = 0;
                while k < 9
                    invariant
                        1 <= n < 10,
                        k <= 9,
                        group@.len() == 9,
                        found is None ==> !multiple && forall|m: int| 0 <= m < k ==> !(#[trigger] group@[m]).2.has(n as int),
                        found matches Some(f) ==> {
                            &&& f < k
                            &&& group@[f as int].2.has(n as int)
                            &&& !multiple ==> forall|m: int| 0 <= m < k && m != f ==> !(#[trigger] group@[m]).2.has(n as int)
                            &&& multiple ==> exists|m: int| 0 <= m < k && m != f && (#[trigger] group@[m]).2.has(n as int)
                        },
                    decreases 9 - k,
                {
                    if group[k].2.contains(n) {
                        if found.is_none() {
                            found = Some(k);
                        } else {
                            multiple = true;
                        }
                    }
                    k = k + 1;
                }
                if let Some(f) = found {
                    if !multiple {
                        let x = group[f].0;
                        let y = group[f].1;
                        proof {
                            if snap.hidden_closed() {
                                assert forall|k2: int| 0 <= k2 < 9 && k2 != f implies !(#[trigger] snap.gcell(gi as int, k2)).has(
                                    n as int,
                                ) by {
                                    assert(group@[k2].2 == snap.gcell(gi as int, k2));
                                }
                                assert(snap.gcell(gi as int, f as int).has(n as int));
                                assert(snap.gcell(gi as int, f as int).size() == 1);
                            }
                        }
                        if self.values[x][y].is_invalid() {
                            proof {
                                assert forall|sol: Board| sol.is_solution() && #[trigger] snap.admits(sol) implies false by {
                                    assert(sol.at(x as int, y as int) matches Some(w) && is_digit(w as int));
                                    assert(self.cell(x as int, y as int).has(sol.at(x as int, y as int)->Some_0 as int));
                                }
                            }
                            return Err(());
                        }
                        proof {
                            assert forall|sol: Board| sol.is_solution() && #[trigger] snap.admits(sol) implies sol.at(
                                x as int,
                                y as int,
                            ) == Some(n) by {
                                assert(sol.group_holds(gi as int, n as int));
                                let k0 = choose|k0: int|
                                    0 <= k0 < 9 && #[trigger] sol.at(group_x(gi as int, k0), group_y(gi as int, k0)) == Some(
                                        n as int as u8,
                                    );
                                assert(snap.cell(group_x(gi as int, k0), group_y(gi as int, k0)).has(n as int));
                                assert(group@[k0].2.has(n as int));
                            }
                        }
                        if !self.values[x][y].is_definitive() {
                            assert(self.cell(x as int, y as int) == snap.cell(x as int, y as int));
                            let ghost before = *self;
                            let mut c = self.values[x][y];
                            c.leave_only(n);
                            self.set_cell(x, y, c);
                            changed = true;
                            proof {
                                SolvingBoard::lemma_near_kept(before, *self, x as int, y as int);
                                assert forall|i: int, j: int, d: int|
                                    in_grid(i, j) && is_digit(d) && self.cell(i, j).size() != 1 && !#[trigger] self.cell(i, j).has(
                                        d,
                                    ) implies self.placed_near(i, j, d) by {
                                    assert(before.cell(i, j) == self.cell(i, j));
                                    assert(before.placed_near(i, j, d));
                                }
                            }
                        }
                    }
                }
                proof {
                    if !changed {
                        assert forall|k0: int|
                            0 <= k0 < 9 && #[trigger] snap.gcell(gi as int, k0).has(n as int) && (forall|k2: int|
                                0 <= k2 < 9 && k2 != k0 ==> !(#[trigger] snap.gcell(gi as int, k2)).has(n as int))
                                implies snap.gcell(gi as int, k0).size() == 1 by {
                            assert(group@[k0].2.has(n as int));
                            if let Some(f) = found {
                                if f != k0 {
                                    assert(!snap.gcell(gi as int, f as int).has(n as int));
                                }
                                if multiple {
                                    let m = choose|m: int| 0 <= m < 9 && m != f && (#[trigger] group@[m]).2.has(n as int);
                                    assert(snap.gcell(gi as int, m).has(n as int));
                                }
                            }
                        }
                    }
                }
                gi = gi + 1;
            }
            n = n + 1;
        }
        Ok(changed)
    }

    /// No cell with several candidates holds the digit of a peer that has one.
    pub open spec fn peer_closed(&self) -> bool {
        forall|x: int, y: int, x2: int, y2: int, d: int|
            #![trigger self.cell(x, y).has(d), self.cell(x2, y2).has(d)]
            in_grid(x, y) && in_grid(x2, y2) && is_digit(d) && are_peers(x, y, x2, y2) && self.cell(x, y).size() > 1
                && self.cell(x2, y2).size() == 1 && self.cell(x2, y2).has(d) ==> !self.cell(x, y).has(d)
    }

    /// A peer of (x, y), other than (x, y) itself, holds `d` as its only candidate.
    pub open spec fn placed_near(&self, x: int, y: int, d: int) -> bool {
        exists|x2: int, y2: int|
            in_grid(x2, y2) && are_peers(x, y, x2, y2) && (x2 != x || y2 != y) && (#[trigger] self.cell(x2, y2)).size() == 1
                && self.cell(x2, y2).has(d)
    }

    /// A cell with several candidates lacks a digit only where a peer holds
    /// that digit alone.
    pub open spec fn tight(&self) -> bool {
        forall|x: int, y: int, d: int|
            in_grid(x, y) && is_digit(d) && self.cell(x, y).size() != 1 && !#[trigger] self.cell(x, y).has(d) ==> self.placed_near(x, y, d)
    }

    /// What a pass of both techniques cannot change.
    pub open spec fn settled(&self) -> bool {
        &&& self.no_empty_cell()
        &&& self.tight()
        &&& self.peer_closed()
        &&& self.hidden_closed()
        &&& self.clash_free()
    }

    /// The candidate grid of the fixed grid that `f` shows: the cells of `f`
    /// with one candidate, and every digit elsewhere.
    pub open spec fn seeded_by(&self, f: SolvingBoard) -> bool {
        forall|x: int, y: int| in_grid(x, y) ==> if (#[trigger] f.cell(x, y)).size() == 1 {
            self.cell(x, y) == f.cell(x, y)
        } else {
            forall|d: int| is_digit(d) ==> #[trigger] self.cell(x, y).has(d)
        }
    }

    /// The two grids have the same cells with one candidate.
    pub open spec fn same_singles(&self, f: SolvingBoard) -> bool {
        forall|x: int, y: int| in_grid(x, y) ==> ((#[trigger] self.cell(x, y)).size() == 1 <==> f.cell(x, y).size() == 1)
            && (self.cell(x, y).size() == 1 ==> self.cell(x, y) == f.cell(x, y))
    }

    /// Changing one cell that held several candidates keeps every digit held
    /// alone near a cell.
    proof fn lemma_near_kept(before: SolvingBoard, after: SolvingBoard, x: int, y: int)
        requires
            forall|i: int, j: int| in_grid(i, j) && (i != x || j != y) ==> #[trigger] after.cell(i, j) == before.cell(i, j),
            before.cell(x, y).size() != 1,
        ensures
            forall|i: int, j: int, d: int| #[trigger] before.placed_near(i, j, d) ==> after.placed_near(i, j, d),
    {
        assert forall|i: int, j: int, d: int| #[trigger] before.placed_near(i, j, d) implies after.placed_near(i, j, d) by {
            let (x2, y2) = choose|x2: int, y2: int|
                in_grid(x2, y2) && are_peers(i, j, x2, y2) && (x2 != i || y2 != j) && (#[trigger] before.cell(x2, y2)).size() == 1
                    && before.cell(x2, y2).has(d);
            assert(after.cell(x2, y2) == before.cell(x2, y2));
        }
    }

    proof fn lemma_same_singles_near(&self, f: SolvingBoard, x: int, y: int, d: int)
        requires
            self.same_singles(f),
        ensures
            self.placed_near(x, y, d) == f.placed_near(x, y, d),
    {
        if self.placed_near(x, y, d) {
            let (x2, y2) = choose|x2: int, y2: int|
                in_grid(x2, y2) && are_peers(x, y, x2, y2) && (x2 != x || y2 != y) && (#[trigger] self.cell(x2, y2)).size() == 1
                    && self.cell(x2, y2).has(d);
            assert(f.cell(x2, y2) == self.cell(x2, y2));
        }
        if f.placed_near(x, y, d) {
            let (x2, y2) = choose|x2: int, y2: int|
                in_grid(x2, y2) && are_peers(x, y, x2, y2) && (x2 != x || y2 != y) && (#[trigger] f.cell(x2, y2)).size() == 1
                    && f.cell(x2, y2).has(d);
            assert(f.cell(x2, y2) == self.cell(x2, y2));
        }
    }

    /// The column, row and box values of a cell with several candidates are
    /// the digits its peers hold alone.
    proof fn lemma_views_are_near(&self, x: int, y: int, d: int)
        requires
            in_grid(x, y),
            is_digit(d),
            self.cell(x, y).size() != 1,
        ensures
            definitive_values(self.group(x)).contains(d as u8) || definitive_values(self.group(9 + y)).contains(d as u8)
                || definitive_values(self.group(18 + (y / 3) * 3 + x / 3)).contains(d as u8) <==> self.placed_near(x, y, d),
    {
        let g = 18 + (y / 3) * 3 + x / 3;
        lemma_definitive_values(self.group(x));
        lemma_definitive_values(self.group(9 + y));
        lemma_definitive_values(self.group(g));
        if self.placed_near(x, y, d) {
            let (x2, y2) = choose|x2: int, y2: int|
                in_grid(x2, y2) && are_peers(x, y, x2, y2) && (x2 != x || y2 != y) && (#[trigger] self.cell(x2, y2)).size() == 1
                    && self.cell(x2, y2).has(d);
            self.lemma_peer_in_views(x, y, x2, y2, d);
        }
        if definitive_values(self.group(x)).contains(d as u8) {
            let k = choose|k: int| 0 <= k < 9 && (#[trigger] self.group(x)[k]).size() == 1 && self.group(x)[k].has(d);
            assert(self.group(x)[k] == self.cell(x, k));
            assert(are_peers(x, y, x, k));
        }
        if definitive_values(self.group(9 + y)).contains(d as u8) {
            let k = choose|k: int| 0 <= k < 9 && (#[trigger] self.group(9 + y)[k]).size() == 1 && self.group(9 + y)[k].has(d);
            assert(self.group(9 + y)[k] == self.cell(k, y));
            assert(are_peers(x, y, k, y));
        }
        if definitive_values(self.group(g)).contains(d as u8) {
            let k = choose|k: int| 0 <= k < 9 && (#[trigger] self.group(g)[k]).size() == 1 && self.group(g)[k].has(d);
            assert(self.group(g)[k] == self.cell(group_x(g, k), group_y(g, k)));
            assert(are_peers(x, y, group_x(g, k), group_y(g, k)));
        }
    }

    /// Each cell still holds the digit that `sol` puts there.
    pub open spec fn admits(&self, sol: Board) -> bool {
        forall|x: int, y: int| in_grid(x, y) ==> #[trigger] self.cell(x, y).has(sol.at(x, y)->Some_0 as int)
    }

    /// A digit that a peer holds as its only candidate is not what a solution
    /// admitted by the grid puts in a cell with several candidates.
    proof fn lemma_solution_not_in_views(&self, sol: Board, x: int, y: int)
        requires
            sol.is_solution(),
            self.admits(sol),
            in_grid(x, y),
            self.cell(x, y).size() > 1,
        ensures
            !definitive_values(self.group(x)).contains(sol.at(x, y)->Some_0),
            !definitive_values(self.group(9 + y)).contains(sol.at(x, y)->Some_0),
            !definitive_values(self.group(18 + (y / 3) * 3 + x / 3)).contains(sol.at(x, y)->Some_0),
    {
        let v = sol.at(x, y)->Some_0;
        assert(sol.at(x, y) matches Some(w) && is_digit(w as int));
        let g = 18 + (y / 3) * 3 + x / 3;
        lemma_definitive_values(self.group(x));
        lemma_definitive_values(self.group(9 + y));
        lemma_definitive_values(self.group(g));
        assert forall|i: int, j: int|
            in_grid(i, j) && are_peers(x, y, i, j) && (i != x || j != y) && self.cell(i, j).size() == 1 implies !(
            #[trigger] self.cell(i, j)).has(v as int) by {
            assert(self.cell(i, j).has(sol.at(i, j)->Some_0 as int));
            assert(sol.at(i, j) matches Some(w) && is_digit(w as int));
            assert(sol.at(x, y) != sol.at(i, j));
            if self.cell(i, j).has(v as int) {
                crate::cell::lemma_flags_set_one(self.cell(i, j).0@, v - 1, sol.at(i, j)->Some_0 - 1);
            }
        }
        assert(v == (v as int) as u8);
        if definitive_values(self.group(x)).contains((v as int) as u8) {
            let k = choose|k: int| 0 <= k < 9 && (#[trigger] self.group(x)[k]).size() == 1 && self.group(x)[k].has(v as int);
            assert(self.group(x)[k] == self.cell(x, k));
        }
        assert(v == (v as int) as u8);
        if definitive_values(self.group(9 + y)).contains((v as int) as u8) {
            let k = choose|k: int| 0 <= k < 9 && (#[trigger] self.group(9 + y)[k]).size() == 1 && self.group(9 + y)[k].has(v as int);
            assert(self.group(9 + y)[k] == self.cell(k, y));
        }
        assert(v == (v as int) as u8);
        if definitive_values(self.group(g)).contains((v as int) as u8) {
            let k = choose|k: int| 0 <= k < 9 && (#[trigger] self.group(g)[k]).size() == 1 && self.group(g)[k].has(v as int);
            assert(self.group(g)[k] == self.cell(group_x(g, k), group_y(g, k)));
            assert(are_peers(x, y, group_x(g, k), group_y(g, k)));
        }
    }

    /// No two peers hold the same single candidate.
    pub open spec fn clash_free(&self) -> bool {
        forall|x: int, y: int, x2: int, y2: int, d: int|
            #![trigger self.cell(x, y).has(d), self.cell(x2, y2).has(d)]
            in_grid(x, y) && in_grid(x2, y2) && is_digit(d) && are_peers(x, y, x2, y2) && (x != x2 || y != y2)
                && self.cell(x, y).size() == 1 && self.cell(x2, y2).size() == 1 && self.cell(x, y).has(d)
                ==> !self.cell(x2, y2).has(d)
    }

    /// Whether a peer of (x, y), other than (x, y) itself, holds `v` as its
    /// only candidate.
    fn clashes(&self, x: usize, y: usize, v: u8) -> (r: bool)
        requires
            x < 9,
            y < 9,
            is_digit(v as int),
        ensures
            r == exists|i: int, j: int|
                in_grid(i, j) && are_peers(x as int, y as int, i, j) && (i != x || j != y) && (#[trigger] self.cell(i, j)).size()
                    == 1 && self.cell(i, j).has(v as int),
    {
        let mut i: usize = 0;
        while i < 9
            invariant
                x < 9,
                y < 9,
                is_digit(v as int),
                i <= 9,
                forall|a: int, b: int|
                    0 <= a < i && 0 <= b < 9 && are_peers(x as int, y as int, a, b) && (a != x || b != y) ==> !((
                    #[trigger] self.cell(a, b)).size() == 1 && self.cell(a, b).has(v as int)),
            decreases 9 - i,
        {
            let mut j: usize = 0;
            while j < 9
                invariant
                    x < 9,
                    y < 9,
                    is_digit(v as int),
                    i < 9,
                    j <= 9,
                    forall|a: int, b: int|
                        (0 <= a < i && 0 <= b < 9 || a == i && 0 <= b < j) && are_peers(x as int, y as int, a, b) && (
                        a != x || b != y) ==> !((#[trigger] self.cell(a, b)).size() == 1 && self.cell(a, b).has(v as int)),
                decreases 9 - j,
            {
                if (i != x || j != y) && (i == x || j == y || (i / 3 == x / 3 && j / 3 == y / 3)) {
                    let c = self.values[i][j];
                    if c.is_definitive() && c.contains(v) {
                        assert(are_peers(x as int, y as int, i as int, j as int));
                        assert(self.cell(i as int, j as int).size() == 1 && self.cell(i as int, j as int).has(v as int));
                        return true;
                    }
                }
                j = j + 1;
            }
            i = i + 1;
        }
        false
    }

    /// A digit that only one cell of a group can hold has been placed there.
    pub open spec fn hidden_closed(&self) -> bool {
        forall|g: int, k: int, n: int|
            0 <= g < 27 && 0 <= k < 9 && is_digit(n) && #[trigger] self.gcell(g, k).has(n) && (forall|k2: int|
                0 <= k2 < 9 && k2 != k ==> !(#[trigger] self.gcell(g, k2)).has(n)) ==> self.gcell(g, k).size() == 1
    }

}

} // verus!
