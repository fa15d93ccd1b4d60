use vstd::prelude::*;

use crate::cell::Cell;
use crate::grid::{
    cell_ok, lemma_empties_all, lemma_empties_bounds, lemma_empties_update,
    lemma_full_consistent_is_solved, lemma_full_count, lemma_place_preserves_consistent,
    lemma_same_cells_consistent, lemma_clear_preserves_consistent, Grid,
};
use crate::rng::{gen_range_u32, new_rng, shuffle_u32};
use crate::solvability::{
    completable, lemma_blocked_candidate, lemma_empty_board_completable, lemma_failed_branch,
    lemma_solved_grid_completable, solves,
};

verus! {

#[derive(Clone, Copy, Debug, PartialEq, Eq, Structural)]
pub enum Difficulty {
    Easy,
    Medium,
    Hard,
}

/// Which difficulty a textual label selects; an unrecognized label plays
/// easy.
pub open spec fn difficulty_from_label(s: Seq<char>) -> Difficulty {
    if s == "easy"@ {
        Difficulty::Easy
    } else if s == "medium"@ {
        Difficulty::Medium
    } else if s == "hard"@ {
        Difficulty::Hard
    } else {
        Difficulty::Easy
    }
}

/// Fewest cells the carve step empties for a difficulty.
pub open spec fn blanks_lo(d: Difficulty) -> u32 {
    match d {
        Difficulty::Easy => 40,
        Difficulty::Medium => 50,
        Difficulty::Hard => 60,
    }
}

/// One past the most cells the carve step empties for a difficulty.
pub open spec fn blanks_hi(d: Difficulty) -> u32 {
    match d {
        Difficulty::Easy => 50,
        Difficulty::Medium => 60,
        Difficulty::Hard => 70,
    }
}

/// Why a user move was rejected. A rejected move never touches the board.
#[derive(Clone, Copy, Debug, PartialEq, Eq, Structural)]
pub enum MoveError {
    InvalidX,
    InvalidY,
    InvalidValue,
    NotEditable,
    AlreadySet,
}

impl MoveError {
    /// The one-line diagnostic shown to the user for this rejection.
    pub open spec fn spec_message(self) -> Seq<char> {
        match self {
            MoveError::InvalidX => "Invalid x coordinate"@,
            MoveError::InvalidY => "Invalid y coordinate"@,
            MoveError::InvalidValue => "Invalid value"@,
            MoveError::NotEditable => "You can't change this cell"@,
            MoveError::AlreadySet => "This cell is already set"@,
        }
    }

    pub fn message(&self) -> (m: String)
        ensures
            m@ == self.spec_message(),
    {
        match self {
            MoveError::InvalidX => "Invalid x coordinate".to_owned(),
            MoveError::InvalidY => "Invalid y coordinate".to_owned(),
            MoveError::InvalidValue => "Invalid value".to_owned(),
            MoveError::NotEditable => "You can't change this cell".to_owned(),
            MoveError::AlreadySet => "This cell is already set".to_owned(),
        }
    }
}

/// One game session: a board and the difficulty it was asked for.
pub struct Game {
    pub grid: Grid,
    pub difficulty: Difficulty,
}

impl Game {
    /// A fresh game: an all-empty 9x9 board and the difficulty named by the
    /// label.
    pub fn new(difficulty: String) -> (g: Game)
        ensures
            g.difficulty == difficulty_from_label(difficulty@),
            g.grid.wf(),
            g.grid.consistent(),
            g.grid.spec_count_empty() == 81,
            completable(g.grid.cells@),
            forall|i: int|
                0 <= i < 81 ==> !(#[trigger] g.grid.cells@[i]).is_filled()
                    && g.grid.cells@[i].can_set,
    {
        let grid = Grid::new(9, 9);
        proof {
            assert forall|i: int| 0 <= i < 81 implies !(#[trigger] grid.cells@[i]).is_filled()
                && grid.cells@[i].can_set by {}
            assert(grid.wf());
            assert forall|x1: int, y1: int, x2: int, y2: int|
                0 <= x1 < 9 && 0 <= y1 < 9 && 0 <= x2 < 9 && 0 <= y2 < 9 && !(x1 == x2 && y1 == y2)
                    && crate::grid::same_unit(x1, y1, x2, y2) && grid.filled(x1, y1)
                    && grid.filled(
                    x2,
                    y2,
                ) implies (#[trigger] grid.val_at(x1, y1)) != (#[trigger] grid.val_at(
                x2,
                y2,
            )) by {
                assert(!grid.cells@[Grid::pos(x1, y1)].is_filled());
            }
            lemma_empties_all(grid.cells@, 81);
            lemma_empty_board_completable(grid.cells@);
        }
        let d = if difficulty == "easy".to_owned() {
            Difficulty::Easy
        } else if difficulty == "medium".to_owned() {
            Difficulty::Medium
        } else if difficulty == "hard".to_owned() {
            Difficulty::Hard
        } else {
            Difficulty::Easy
        };
        Game { grid, difficulty: d }
    }

    /// Runs the two generation phases: fill the whole board by backtracking
    /// search, then carve a difficulty-driven number of cells back out. On
    /// every completable board — a fresh all-empty board always is — the
    /// carve range is guaranteed; an uncompletable board is left untouched.
    pub fn init(&mut self)
        requires
            old(self).grid.wf(),
            old(self).grid.consistent(),
        ensures
            final(self).difficulty == old(self).difficulty,
            final(self).grid.wf(),
            final(self).grid.consistent(),
            forall|p: int|
                0 <= p < 81 && !(#[trigger] old(self).grid.cells@[p]).is_filled()
                    && final(self).grid.cells@[p].is_filled()
                    ==> !final(self).grid.cells@[p].can_set,
            completable(old(self).grid.cells@)
                ==> blanks_lo(old(self).difficulty) <= final(self).grid.spec_count_empty()
                < blanks_hi(old(self).difficulty),
            completable(old(self).grid.cells@) ==> completable(final(self).grid.cells@),
            !completable(old(self).grid.cells@)
                ==> final(self).grid.cells@ == old(self).grid.cells@,
    {
        let filled = self.generate_full_grid();
        if filled {
            proof {
                lemma_full_count(self.grid);
            }
            let ghost generated = self.grid;
            self.remove_cells();
            proof {
                assert forall|p: int|
                    0 <= p < 81 && !(#[trigger] old(self).grid.cells@[p]).is_filled()
                        && self.grid.cells@[p].is_filled() implies !self.grid.cells@[p].can_set by {
                    assert(self.grid.cells@[p] == generated.cells@[p]);
                }
            }
        } else {
            proof {
                lemma_same_cells_consistent(old(self).grid, self.grid);
            }
        }
    }

    /// Phase one: depth-first backtracking search, in row-major cell order
    /// with a fresh random digit order per cell. It succeeds exactly when
    /// the board admits a completion (so always from an empty board): the
    /// search tries every candidate, so the random order decides which
    /// solution is found, never whether one is. On success the board is
    /// full and still consistent; on failure it is exactly as it was.
    #[verifier::loop_isolation(false)]
    pub fn generate_full_grid(&mut self) -> (r: bool)
        requires
            old(self).grid.wf(),
            old(self).grid.consistent(),
        ensures
            final(self).difficulty == old(self).difficulty,
            final(self).grid.wf(),
            final(self).grid.consistent(),
            forall|p: int|
                0 <= p < 81 && (#[trigger] old(self).grid.cells@[p]).is_filled()
                    ==> final(self).grid.cells@[p] == old(self).grid.cells@[p],
            !r ==> final(self).grid.cells@ == old(self).grid.cells@,
            r == completable(old(self).grid.cells@),
            r ==> final(self).grid.full(),
            r ==> final(self).grid.spec_solved(),
            r ==> forall|p: int|
                0 <= p < 81 && !(#[trigger] old(self).grid.cells@[p]).is_filled()
                    ==> !final(self).grid.cells@[p].can_set,
        decreases old(self).grid.spec_count_empty(),
    {
        let mut rng = new_rng();
        let mut values: Vec<u32> = Vec::new();
        values.push(1);
        values.push(2);
        values.push(3);
        values.push(4);
        values.push(5);
        values.push(6);
        values.push(7);
        values.push(8);
        values.push(9);
        let ghost pre = values@;
        shuffle_u32(&mut values, &mut rng);
        proof {
            broadcast use vstd::seq_lib::group_to_multiset_ensures;

            assert(values@.to_multiset().len() == pre.to_multiset().len());
            assert(values@.len() == 9);
            assert forall|i: int| 0 <= i < 9 implies 1 <= #[trigger] values@[i] <= 9 by {
                assert(values@.contains(values@[i]));
                assert(values@.to_multiset().count(values@[i]) > 0);
                assert(pre.to_multiset().count(values@[i]) > 0);
                assert(pre.contains(values@[i]));
                let j = choose|j: int| 0 <= j < pre.len() && pre[j] == values@[i];
                assert(1 <= pre[j] <= 9);
            }
            assert forall|d: u32| 1 <= d <= 9 implies values@.contains(d) by {
                assert(pre[d as int - 1] == d);
                assert(pre.contains(d));
                assert(pre.to_multiset().count(d) > 0);
                assert(values@.to_multiset().count(d) > 0);
            }
        }
        for x in 0..9u32
            invariant
                self.difficulty == old(self).difficulty,
                self.grid.cells@ == old(self).grid.cells@,
                self.grid.width == old(self).grid.width,
                self.grid.height == old(self).grid.height,
                forall|a: int, b: int|
                    0 <= a < x && 0 <= b < 9 ==> #[trigger] self.grid.filled(a, b),
        {
            for y in 0..9u32
                invariant
                    self.difficulty == old(self).difficulty,
                    self.grid.cells@ == old(self).grid.cells@,
                    self.grid.width == old(self).grid.width,
                    self.grid.height == old(self).grid.height,
                    forall|a: int, b: int|
                        0 <= a < x && 0 <= b < 9 ==> #[trigger] self.grid.filled(a, b),
                    forall|b: int| 0 <= b < y ==> #[trigger] self.grid.filled(x as int, b),
            {
                if self.grid.get_cell(x, y).value.is_none() {
                    proof {
                        lemma_same_cells_consistent(old(self).grid, self.grid);
                    }
                    let n = values.len();
                    for k in 0..n
                        invariant
                            n == 9,
                            x < 9,
                            y < 9,
                            values@.len() == 9,
                            forall|i: int| 0 <= i < 9 ==> 1 <= #[trigger] values@[i] <= 9,
                            self.difficulty == old(self).difficulty,
                            self.grid.cells@ == old(self).grid.cells@,
                            self.grid.width == old(self).grid.width,
                            self.grid.height == old(self).grid.height,
                            self.grid.wf(),
                            self.grid.consistent(),
                            !self.grid.filled(x as int, y as int),
                            forall|d: u32| 1 <= d <= 9 ==> values@.contains(d),
                            forall|f: Seq<u32>, j: int|
                                #![trigger solves(f, old(self).grid.cells@), values@[j]]
                                solves(f, old(self).grid.cells@) && 0 <= j < k ==> f[Grid::pos(
                                    x as int,
                                    y as int,
                                )] != values@[j],
                    {
                        let val = values[k];
                        if !self.grid.is_valid(x, y, val) {
                            proof {
                                assert forall|f: Seq<u32>, j: int|
                                    #![trigger solves(f, old(self).grid.cells@), values@[j]]
                                    solves(f, old(self).grid.cells@) && 0 <= j < k
                                        + 1 implies f[Grid::pos(x as int, y as int)]
                                    != values@[j] by {
                                    if j == k {
                                        lemma_blocked_candidate(
                                            self.grid,
                                            x as int,
                                            y as int,
                                            val,
                                            f,
                                        );
                                    }
                                }
                            }
                        } else {
                            let ghost before = self.grid;
                            self.grid.set_default(x, y, val);
                            proof {
                                let placed = (Cell { value: Some(val), can_set: false });
                                lemma_place_preserves_consistent(
                                    before,
                                    self.grid,
                                    x as int,
                                    y as int,
                                    placed,
                                );
                                assert forall|i: int| 0 <= i < 81 implies cell_ok(
                                    #[trigger] self.grid.cells@[i],
                                ) by {
                                    if i != Grid::pos(x as int, y as int) {
                                        assert(self.grid.cells@[i] == before.cells@[i]);
                                    }
                                }
                                lemma_empties_update(
                                    before.cells@,
                                    Grid::pos(x as int, y as int),
                                    placed,
                                    81,
                                );
                                lemma_empties_bounds(self.grid.cells@, 81);
                                assert(self.grid.spec_count_empty() == old(
                                    self,
                                ).grid.spec_count_empty() - 1);
                            }
                            if self.generate_full_grid() {
                                proof {
                                    let s0 = old(self).grid.cells@;
                                    let s1 = s0.update(
                                        Grid::pos(x as int, y as int),
                                        (Cell { value: Some(val), can_set: false }),
                                    );
                                    let s2 = self.grid.cells@;
                                    assert forall|p: int|
                                        0 <= p < 81 && (#[trigger] s0[p]).is_filled() implies s2[p]
                                        == s0[p] by {
                                        assert(s1[p] == s0[p]);
                                        assert(s1[p].is_filled());
                                    }
                                    assert forall|p: int|
                                        0 <= p < 81 && !(#[trigger] s0[p]).is_filled() implies !s2[p].can_set by {
                                        if p == Grid::pos(x as int, y as int) {
                                            assert(s1[p].is_filled());
                                            assert(s2[p] == s1[p]);
                                        } else {
                                            assert(s1[p] == s0[p]);
                                        }
                                    }
                                    lemma_full_consistent_is_solved(self.grid);
                                    lemma_solved_grid_completable(
                                        old(self).grid.cells@,
                                        self.grid,
                                    );
                                }
                                return true;
                            }
                            let ghost placed_cells = before.cells@.update(
                                Grid::pos(x as int, y as int),
                                (Cell { value: Some(val), can_set: false }),
                            );
                            self.grid.set_empty(x, y);
                            proof {
                                assert(cell_ok(before.cells@[Grid::pos(x as int, y as int)]));
                                assert(before.cells@[Grid::pos(x as int, y as int)] == (Cell {
                                    value: None,
                                    can_set: true,
                                }));
                                assert(self.grid.cells@ =~= before.cells@);
                                lemma_same_cells_consistent(before, self.grid);
                                assert forall|f: Seq<u32>, j: int|
                                    #![trigger solves(f, old(self).grid.cells@), values@[j]]
                                    solves(f, old(self).grid.cells@) && 0 <= j < k
                                        + 1 implies f[Grid::pos(x as int, y as int)]
                                    != values@[j] by {
                                    if j == k {
                                        lemma_failed_branch(
                                            old(self).grid.cells@,
                                            placed_cells,
                                            x as int,
                                            y as int,
                                            val,
                                            f,
                                        );
                                    }
                                }
                            }
                        }
                    }
                    proof {
                        assert(!completable(old(self).grid.cells@)) by {
                            if completable(old(self).grid.cells@) {
                                let f = choose|f: Seq<u32>| solves(f, old(self).grid.cells@);
                                let d = f[Grid::pos(x as int, y as int)];
                                assert(0 <= Grid::pos(x as int, y as int) < 81);
                                assert(1 <= d <= 9);
                                assert(values@.contains(d));
                                let j = choose|j: int| 0 <= j < values@.len() && values@[j] == d;
                                assert(f[Grid::pos(x as int, y as int)] != values@[j]);
                                assert(false);
                            }
                        }
                    }
                    return false;
                }
            }
        }
        proof {
            lemma_same_cells_consistent(old(self).grid, self.grid);
            assert forall|a: int, b: int| 0 <= a < 9 && 0 <= b < 9 implies #[trigger] self.grid.filled(
                a,
                b,
            ) by {}
            assert forall|p: int| 0 <= p < 81 implies (#[trigger] old(
                self,
            ).grid.cells@[p]).is_filled() by {
                let a = p % 9;
                let b = p / 9;
                vstd::arithmetic::div_mod::lemma_fundamental_div_mod(p, 9);
                vstd::arithmetic::div_mod::lemma_mod_bound(p, 9);
                assert(self.grid.filled(a, b));
                assert(Grid::pos(a, b) == p);
            }
            lemma_full_consistent_is_solved(self.grid);
            lemma_solved_grid_completable(old(self).grid.cells@, self.grid);
        }
        true
    }

    /// Phase two: draw how many cells to blank from the difficulty's range,
    /// then repeatedly clear a cell picked uniformly among those still
    /// filled. Cleared cells become editable; the rest stay as they were.
    #[verifier::loop_isolation(false)]
    pub fn remove_cells(&mut self)
        requires
            old(self).grid.wf(),
            old(self).grid.spec_count_empty() == 0,
        ensures
            final(self).difficulty == old(self).difficulty,
            final(self).grid.wf(),
            blanks_lo(old(self).difficulty) <= final(self).grid.spec_count_empty() < blanks_hi(
                old(self).difficulty,
            ),
            old(self).grid.consistent() ==> final(self).grid.consistent(),
            old(self).grid.consistent() ==> completable(final(self).grid.cells@),
            forall|p: int|
                0 <= p < 81 ==> #[trigger] final(self).grid.cells@[p] == old(self).grid.cells@[p]
                    || final(self).grid.cells@[p] == (Cell { value: None, can_set: true }),
    {
        let mut rng = new_rng();
        let count: u32 = match self.difficulty {
            Difficulty::Easy => gen_range_u32(&mut rng, 40, 50),
            Difficulty::Medium => gen_range_u32(&mut rng, 50, 60),
            Difficulty::Hard => gen_range_u32(&mut rng, 60, 70),
        };
        let mut remaining = count;
        while remaining > 0
            invariant
                remaining <= count,
                blanks_lo(old(self).difficulty) <= count < blanks_hi(old(self).difficulty),
                count < 70,
                self.difficulty == old(self).difficulty,
                self.grid.wf(),
                old(self).grid.consistent() ==> self.grid.consistent(),
                self.grid.spec_count_empty() == count - remaining,
                forall|p: int|
                    0 <= p < 81 ==> #[trigger] self.grid.cells@[p] == old(self).grid.cells@[p]
                        || self.grid.cells@[p] == (Cell { value: None, can_set: true }),
            decreases remaining,
        {
            let cleared_so_far = count - remaining;
            let k = gen_range_u32(&mut rng, 0, 81 - cleared_so_far);
            let ghost before = self.grid;
            self.grid.clear_nth_filled(k);
            proof {
                let p = choose|p: int|
                    0 <= p < 81 && (#[trigger] before.cells@[p]).is_filled() && self.grid.cells@
                        == before.cells@.update(p, (Cell { value: None, can_set: true }));
                assert forall|q: int| 0 <= q < 81 implies (#[trigger] self.grid.cells@[q]
                    == old(self).grid.cells@[q] || self.grid.cells@[q] == (Cell {
                    value: None,
                    can_set: true,
                })) by {
                    if q != p {
                        assert(self.grid.cells@[q] == before.cells@[q]);
                    }
                }
                assert forall|i: int| 0 <= i < 81 implies cell_ok(
                    #[trigger] self.grid.cells@[i],
                ) by {
                    if i != p {
                        assert(self.grid.cells@[i] == before.cells@[i]);
                    }
                }
                if old(self).grid.consistent() {
                    lemma_clear_preserves_consistent(before, self.grid, p);
                }
            }
            remaining -= 1;
        }
        proof {
            if old(self).grid.consistent() {
                lemma_full_count(old(self).grid);
                assert forall|p: int|
                    0 <= p < 81 && (#[trigger] self.grid.cells@[p]).is_filled() implies old(
                    self,
                ).grid.cells@[p] == self.grid.cells@[p] by {}
                lemma_solved_grid_completable(self.grid.cells@, old(self).grid);
            }
        }
    }

    /// Whether the board passes the sum-based solved check.
    pub fn is_solved(&mut self) -> (r: bool)
        requires
            old(self).grid.wf(),
        ensures
            *final(self) == *old(self),
            r == old(self).grid.spec_solved(),
    {
        self.grid.is_solved()
    }

    /// Whether every cell holds a value (the session's loop-exit signal).
    pub fn is_complete(&self) -> (r: bool)
        requires
            self.grid.dims_ok(),
        ensures
            r == (self.grid.spec_count_empty() == 0),
    {
        self.grid.count_empty() == 0
    }

    /// Applies a user edit given 1-based coordinates, validating in order: x
    /// range, y range, value range, cell editability, cell emptiness. A
    /// rejected move leaves the game untouched; an accepted one writes the
    /// digit and keeps the cell editable. Sudoku legality is deliberately
    /// not re-checked here: a conflicting move is caught only by the final
    /// solved check.
    pub fn apply_user_move(&mut self, x: u32, y: u32, value: u32) -> (r: Result<(), MoveError>)
        requires
            old(self).grid.wf(),
        ensures
            final(self).difficulty == old(self).difficulty,
            final(self).grid.wf(),
            r is Err ==> *final(self) == *old(self),
            !(1 <= x <= 9) ==> r == Err::<(), MoveError>(MoveError::InvalidX),
            1 <= x <= 9 && !(1 <= y <= 9) ==> r == Err::<(), MoveError>(MoveError::InvalidY),
            1 <= x <= 9 && 1 <= y <= 9 && !(1 <= value <= 9) ==> r == Err::<(), MoveError>(MoveError::InvalidValue),
            1 <= x <= 9 && 1 <= y <= 9 && 1 <= value <= 9 && !old(self).grid.editable(
                x - 1,
                y - 1,
            ) ==> r == Err::<(), MoveError>(MoveError::NotEditable),
            1 <= x <= 9 && 1 <= y <= 9 && 1 <= value <= 9 && old(self).grid.editable(x - 1, y - 1)
                && old(self).grid.filled(x - 1, y - 1) ==> r == Err::<(), MoveError>(MoveError::AlreadySet),
            1 <= x <= 9 && 1 <= y <= 9 && 1 <= value <= 9 && old(self).grid.editable(x - 1, y - 1)
                && !old(self).grid.filled(x - 1, y - 1) ==> r == Ok::<(), MoveError>(())
                && final(self).grid.spec_count_empty() == old(self).grid.spec_count_empty() - 1
                && final(self).grid.cells@ == old(self).grid.cells@.update(
                Grid::pos(x - 1, y - 1),
                (Cell { value: Some(value), can_set: true }),
            ) && final(self).grid.width == old(self).grid.width
                && final(self).grid.height == old(self).grid.height,
    {
        if x < 1 || x > 9 {
            return Err(MoveError::InvalidX);
        }
        if y < 1 || y > 9 {
            return Err(MoveError::InvalidY);
        }
        if value < 1 || value > 9 {
            return Err(MoveError::InvalidValue);
        }
        if !self.grid.can_set(x - 1, y - 1) {
            return Err(MoveError::NotEditable);
        }
        if !self.grid.is_empty(x - 1, y - 1) {
            return Err(MoveError::AlreadySet);
        }
        let ghost before = self.grid;
        self.grid.set_value(x - 1, y - 1, value);
        proof {
            assert forall|i: int| 0 <= i < 81 implies cell_ok(#[trigger] self.grid.cells@[i]) by {
                if i != Grid::pos(x - 1, y - 1) {
                    assert(self.grid.cells@[i] == before.cells@[i]);
                }
            }
            lemma_empties_update(
                before.cells@,
                Grid::pos(x - 1, y - 1),
                (Cell { value: Some(value), can_set: true }),
                81,
            );
        }
        Ok(())
    }
}

} // verus!
