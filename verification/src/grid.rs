use vstd::prelude::*;

use crate::cell::Cell;
use crate::digits::{is_perm_1_9, lemma_distinct_digits_perm, seq_sum};

verus! {

/// A cell may hold only a digit 1..=9, and a cell that was emptied (or never
/// filled) stays open to the user.
pub open spec fn cell_ok(c: Cell) -> bool {
    &&& (c.is_filled() ==> 1 <= c.spec_value() <= 9)
    &&& (!c.is_filled() ==> c.can_set)
}

/// Whether `(a, b)` lies in the 3x3 box that contains `(x, y)`.
pub open spec fn in_box(x: int, y: int, a: int, b: int) -> bool {
    0 <= a < 9 && 0 <= b < 9 && a / 3 == x / 3 && b / 3 == y / 3
}

/// The positions `a` that share a three-wide band with `x` are exactly those
/// in the window starting at `(x / 3) * 3`.
pub proof fn lemma_div3_window(x: int, a: int)
    requires
        0 <= x < 9,
        0 <= a < 9,
    ensures
        (a / 3 == x / 3) <==> ((x / 3) * 3 <= a < (x / 3) * 3 + 3),
{
    vstd::arithmetic::div_mod::lemma_fundamental_div_mod(a, 3);
    vstd::arithmetic::div_mod::lemma_fundamental_div_mod(x, 3);
    vstd::arithmetic::div_mod::lemma_mod_bound(a, 3);
    vstd::arithmetic::div_mod::lemma_mod_bound(x, 3);
}

/// Whether two positions share a row, a column, or a 3x3 box.
pub open spec fn same_unit(x1: int, y1: int, x2: int, y2: int) -> bool {
    ||| y1 == y2
    ||| x1 == x2
    ||| (x1 / 3 == x2 / 3 && y1 / 3 == y2 / 3)
}

/// Number of empty cells among the first `k` entries of a cell sequence.
pub open spec fn empties_upto(s: Seq<Cell>, k: int) -> int
    decreases k,
{
    if k <= 0 {
        0
    } else {
        empties_upto(s, k - 1) + if s[k - 1].is_filled() {
            0int
        } else {
            1int
        }
    }
}

/// The 9x9 board: a dense row-major sequence of cells addressed by
/// `(column, row)`.
pub struct Grid {
    pub width: u32,
    pub height: u32,
    pub cells: Vec<Cell>,
}

impl Grid {
    /// Linear index of column `x`, row `y` in the row-major cell sequence.
    pub open spec fn pos(x: int, y: int) -> int {
        y * 9 + x
    }

    /// The playable board shape: 9 by 9, with all 81 cells present.
    pub open spec fn dims_ok(self) -> bool {
        &&& self.width == 9
        &&& self.height == 9
        &&& self.cells@.len() == 81
    }

    /// Shape plus the cell invariant on every position.
    pub open spec fn wf(self) -> bool {
        &&& self.dims_ok()
        &&& forall|i: int| 0 <= i < 81 ==> cell_ok(#[trigger] self.cells@[i])
    }

    pub open spec fn cell_at(self, x: int, y: int) -> Cell {
        self.cells@[Grid::pos(x, y)]
    }

    /// The digit at `(x, y)`, or 0 when the cell is empty.
    pub open spec fn val_at(self, x: int, y: int) -> u32 {
        self.cell_at(x, y).spec_value()
    }

    pub open spec fn filled(self, x: int, y: int) -> bool {
        self.cell_at(x, y).is_filled()
    }

    pub open spec fn editable(self, x: int, y: int) -> bool {
        self.cell_at(x, y).can_set
    }

    /// Every cell holds a digit.
    pub open spec fn full(self) -> bool {
        forall|x: int, y: int| 0 <= x < 9 && 0 <= y < 9 ==> #[trigger] self.filled(x, y)
    }

    pub open spec fn spec_count_empty(self) -> int {
        empties_upto(self.cells@, 81)
    }

    /// The placement test: `v` occurs nowhere in row `y`, column `x`, or the
    /// box containing `(x, y)` — including at `(x, y)` itself.
    pub open spec fn spec_can_place(self, x: int, y: int, v: u32) -> bool {
        &&& forall|i: int| 0 <= i < 9 ==> (#[trigger] self.val_at(i, y)) != v
        &&& forall|j: int| 0 <= j < 9 ==> (#[trigger] self.val_at(x, j)) != v
        &&& forall|a: int, b: int| in_box(x, y, a, b) ==> (#[trigger] self.val_at(a, b)) != v
    }

    /// No two distinct filled cells of a row, column or box hold the same
    /// digit. Generation keeps this invariant at every step.
    pub open spec fn consistent(self) -> bool {
        forall|x1: int, y1: int, x2: int, y2: int|
            0 <= x1 < 9 && 0 <= y1 < 9 && 0 <= x2 < 9 && 0 <= y2 < 9 && !(x1 == x2 && y1 == y2)
                && same_unit(x1, y1, x2, y2) && self.filled(x1, y1) && self.filled(x2, y2)
                ==> (#[trigger] self.val_at(x1, y1)) != (#[trigger] self.val_at(x2, y2))
    }

    /// Row `y` as the nine cell readings, left to right.
    pub open spec fn row_seq(self, y: int) -> Seq<u32> {
        Seq::new(9, |x: int| self.val_at(x, y))
    }

    /// Column `x` as the nine cell readings, top to bottom.
    pub open spec fn col_seq(self, x: int) -> Seq<u32> {
        Seq::new(9, |y: int| self.val_at(x, y))
    }

    /// The box with origin `(bx, by)` as nine cell readings, row by row.
    pub open spec fn box_seq(self, bx: int, by: int) -> Seq<u32> {
        Seq::new(9, |k: int| self.val_at(bx + k % 3, by + k / 3))
    }

    /// The sum-based solved test: every row, column and box sums to 45.
    pub open spec fn spec_solved(self) -> bool {
        &&& forall|y: int| 0 <= y < 9 ==> seq_sum(#[trigger] self.row_seq(y)) == 45
        &&& forall|x: int| 0 <= x < 9 ==> seq_sum(#[trigger] self.col_seq(x)) == 45
        &&& forall|i: int, j: int|
            0 <= i < 3 && 0 <= j < 3 ==> seq_sum(#[trigger] self.box_seq(3 * i, 3 * j)) == 45
    }

    /// A board of `width * height` cells, all empty and editable.
    #[verifier::loop_isolation(false)]
    pub fn new(width: u32, height: u32) -> (g: Grid)
        ensures
            g.width == width,
            g.height == height,
            g.cells@.len() == width * height,
            forall|i: int|
                0 <= i < g.cells@.len() ==> (#[trigger] g.cells@[i]).value is None
                    && g.cells@[i].can_set,
    {
        let mut cells: Vec<Cell> = Vec::new();
        proof {
            assert(0 * width == 0) by (nonlinear_arith);
        }
        for y in 0..height
            invariant
                cells@.len() == y * width,
                forall|i: int|
                    0 <= i < cells@.len() ==> (#[trigger] cells@[i]).value is None
                        && cells@[i].can_set,
        {
            for x in 0..width
                invariant
                    cells@.len() == y * width + x,
                    forall|i: int|
                        0 <= i < cells@.len() ==> (#[trigger] cells@[i]).value is None
                            && cells@[i].can_set,
            {
                cells.push(Cell::new_empty());
            }
            proof {
                assert((y + 1) * width == y * width + width) by (nonlinear_arith);
            }
        }
        proof {
            assert(height * width == width * height) by (nonlinear_arith);
        }
        Grid { width, height, cells }
    }

    pub fn get_cell(&self, x: u32, y: u32) -> (c: &Cell)
        requires
            self.dims_ok(),
            x < 9,
            y < 9,
        ensures
            *c == self.cell_at(x as int, y as int),
    {
        &self.cells[(y * self.width + x) as usize]
    }

    pub fn get_cell_mut(&mut self, x: u32, y: u32) -> (c: &mut Cell)
        requires
            old(self).dims_ok(),
            x < 9,
            y < 9,
        ensures
            *c == old(self).cell_at(x as int, y as int),
            final(self).width == old(self).width,
            final(self).height == old(self).height,
            final(self).cells@ == old(self).cells@.update(
                Grid::pos(x as int, y as int),
                *final(c),
            ),
    {
        let i = (y * self.width + x) as usize;
        &mut self.cells[i]
    }

    /// Writes a digit without touching editability (the user edit path).
    pub fn set_value(&mut self, x: u32, y: u32, value: u32)
        requires
            old(self).dims_ok(),
            x < 9,
            y < 9,
        ensures
            final(self).width == old(self).width,
            final(self).height == old(self).height,
            final(self).cells@ == old(self).cells@.update(
                Grid::pos(x as int, y as int),
                (Cell {
                    value: Some(value),
                    can_set: old(self).cell_at(x as int, y as int).can_set,
                }),
            ),
    {
        self.get_cell_mut(x, y).set_value(value);
    }

    /// Writes a digit and marks the cell immutable (a generator given).
    pub fn set_default(&mut self, x: u32, y: u32, value: u32)
        requires
            old(self).dims_ok(),
            x < 9,
            y < 9,
        ensures
            final(self).width == old(self).width,
            final(self).height == old(self).height,
            final(self).cells@ == old(self).cells@.update(
                Grid::pos(x as int, y as int),
                (Cell { value: Some(value), can_set: false }),
            ),
    {
        let c = self.get_cell_mut(x, y);
        c.set_value(value);
        c.can_set = false;
    }

    /// Empties the cell and forces it editable.
    pub fn set_empty(&mut self, x: u32, y: u32)
        requires
            old(self).dims_ok(),
            x < 9,
            y < 9,
        ensures
            final(self).width == old(self).width,
            final(self).height == old(self).height,
            final(self).cells@ == old(self).cells@.update(
                Grid::pos(x as int, y as int),
                (Cell { value: None, can_set: true }),
            ),
    {
        self.get_cell_mut(x, y).set_empty();
    }

    pub fn is_empty(&self, x: u32, y: u32) -> (r: bool)
        requires
            self.dims_ok(),
            x < 9,
            y < 9,
        ensures
            r == !self.filled(x as int, y as int),
    {
        self.get_cell(x, y).value.is_none()
    }

    pub fn can_set(&self, x: u32, y: u32) -> (r: bool)
        requires
            self.dims_ok(),
            x < 9,
            y < 9,
        ensures
            r == self.editable(x as int, y as int),
    {
        self.get_cell(x, y).can_set
    }

    /// The placement test against the current grid state.
    #[verifier::loop_isolation(false)]
    pub fn is_valid(&mut self, x: u32, y: u32, value: u32) -> (r: bool)
        requires
            old(self).dims_ok(),
            x < 9,
            y < 9,
        ensures
            *final(self) == *old(self),
            r == old(self).spec_can_place(x as int, y as int, value),
    {
        for i in 0..9u32
            invariant
                forall|j: int| 0 <= j < i ==> (#[trigger] self.val_at(j, y as int)) != value,
                forall|j: int| 0 <= j < i ==> (#[trigger] self.val_at(x as int, j)) != value,
        {
            let row_val = self.get_cell(i, y).get_value();
            let col_val = self.get_cell(x, i).get_value();
            if row_val == value || col_val == value {
                assert(self.val_at(i as int, y as int) == value || self.val_at(x as int, i as int)
                    == value);
                assert(!self.spec_can_place(x as int, y as int, value));
                return false;
            }
        }
        let start_x = (x / 3) * 3;
        let start_y = (y / 3) * 3;
        proof {
            assert forall|a: int, b: int| #[trigger] in_box(x as int, y as int, a, b) implies
                start_x <= a < start_x + 3 && start_y <= b < start_y + 3 by {
                lemma_div3_window(x as int, a);
                lemma_div3_window(y as int, b);
            }
        }
        for dx in 0..3u32
            invariant
                forall|a: int, b: int|
                    in_box(x as int, y as int, a, b) && a - start_x < dx
                        ==> (#[trigger] self.val_at(a, b)) != value,
        {
            for dy in 0..3u32
                invariant
                    forall|a: int, b: int|
                        in_box(x as int, y as int, a, b) && (a - start_x < dx || (a - start_x == dx
                            && b - start_y < dy)) ==> (#[trigger] self.val_at(a, b)) != value,
            {
                let box_val = self.get_cell(start_x + dx, start_y + dy).get_value();
                proof {
                    lemma_div3_window(x as int, start_x + dx);
                    lemma_div3_window(y as int, start_y + dy);
                    assert(in_box(x as int, y as int, start_x + dx, start_y + dy));
                }
                if box_val == value {
                    assert(self.val_at(start_x + dx, start_y + dy) == value);
                    assert(!self.spec_can_place(x as int, y as int, value));
                    return false;
                }
            }
        }
        true
    }

    #[verifier::loop_isolation(false)]
    fn check_row(&mut self, y: u32) -> (r: bool)
        requires
            old(self).wf(),
            y < 9,
        ensures
            *final(self) == *old(self),
            r == (seq_sum(old(self).row_seq(y as int)) == 45),
    {
        let mut sum: u32 = 0;
        for x in 0..9u32
            invariant
                self.wf(),
                y < 9,
                sum == seq_sum(self.row_seq(y as int).take(x as int)),
                sum <= 9 * x,
        {
            let v = self.get_cell(x, y).get_value();
            proof {
                assert(cell_ok(self.cells@[Grid::pos(x as int, y as int)]));
                assert(self.row_seq(y as int).take(x + 1).drop_last() =~= self.row_seq(
                    y as int,
                ).take(x as int));
                assert(self.row_seq(y as int).take(x + 1).last() == v);
            }
            sum = sum + v;
        }
        proof {
            assert(self.row_seq(y as int).take(9) =~= self.row_seq(y as int));
        }
        sum == 45
    }

    #[verifier::loop_isolation(false)]
    fn check_column(&mut self, x: u32) -> (r: bool)
        requires
            old(self).wf(),
            x < 9,
        ensures
            *final(self) == *old(self),
            r == (seq_sum(old(self).col_seq(x as int)) == 45),
    {
        let mut sum: u32 = 0;
        for y in 0..9u32
            invariant
                self.wf(),
                x < 9,
                sum == seq_sum(self.col_seq(x as int).take(y as int)),
                sum <= 9 * y,
        {
            let v = self.get_cell(x, y).get_value();
            proof {
                assert(cell_ok(self.cells@[Grid::pos(x as int, y as int)]));
                assert(self.col_seq(x as int).take(y + 1).drop_last() =~= self.col_seq(
                    x as int,
                ).take(y as int));
                assert(self.col_seq(x as int).take(y + 1).last() == v);
            }
            sum = sum + v;
        }
        proof {
            assert(self.col_seq(x as int).take(9) =~= self.col_seq(x as int));
        }
        sum == 45
    }

    #[verifier::loop_isolation(false)]
    fn check_square(&mut self, x: u32, y: u32) -> (r: bool)
        requires
            old(self).wf(),
            x + 3 <= 9,
            y + 3 <= 9,
        ensures
            *final(self) == *old(self),
            r == (seq_sum(old(self).box_seq(x as int, y as int)) == 45),
    {
        let mut sum: u32 = 0;
        for dy in 0..3u32
            invariant
                self.wf(),
                x + 3 <= 9,
                y + 3 <= 9,
                sum == seq_sum(self.box_seq(x as int, y as int).take(3 * dy)),
                sum <= 27 * dy,
        {
            for dx in 0..3u32
                invariant
                    self.wf(),
                    x + 3 <= 9,
                    y + 3 <= 9,
                    dy < 3,
                    sum == seq_sum(self.box_seq(x as int, y as int).take(3 * dy + dx)),
                    sum <= 27 * dy + 9 * dx,
            {
                let v = self.get_cell(x + dx, y + dy).get_value();
                proof {
                    let s = self.box_seq(x as int, y as int);
                    let k: int = 3 * dy + dx;
                    assert(cell_ok(self.cells@[Grid::pos(x + dx, y + dy)]));
                    assert(s[k] == self.val_at(x + dx, y + dy)) by {
                        assert(k % 3 == dx as int && k / 3 == dy as int);
                    }
                    assert(s.take(k + 1).drop_last() =~= s.take(k));
                    assert(s.take(k + 1).last() == v);
                }
                sum = sum + v;
            }
        }
        proof {
            assert(self.box_seq(x as int, y as int).take(9) =~= self.box_seq(x as int, y as int));
        }
        sum == 45
    }

    /// The solved-state check: true iff every row, column and box sums to
    /// exactly 45. This is the game's deliberate stand-in for duplicate
    /// checking; it matches it only because every stored digit is 1..=9.
    #[verifier::loop_isolation(false)]
    pub fn is_solved(&mut self) -> (r: bool)
        requires
            old(self).wf(),
        ensures
            *final(self) == *old(self),
            r == old(self).spec_solved(),
    {
        for y in 0..9u32
            invariant
                self.wf(),
                *self == *old(self),
                forall|j: int| 0 <= j < y ==> seq_sum(#[trigger] self.row_seq(j)) == 45,
        {
            if !self.check_row(y) {
                return false;
            }
        }
        for x in 0..9u32
            invariant
                self.wf(),
                *self == *old(self),
                forall|j: int| 0 <= j < 9 ==> seq_sum(#[trigger] self.row_seq(j)) == 45,
                forall|j: int| 0 <= j < x ==> seq_sum(#[trigger] self.col_seq(j)) == 45,
        {
            if !self.check_column(x) {
                return false;
            }
        }
        for j in 0..3u32
            invariant
                self.wf(),
                *self == *old(self),
                forall|i: int| 0 <= i < 9 ==> seq_sum(#[trigger] self.row_seq(i)) == 45,
                forall|i: int| 0 <= i < 9 ==> seq_sum(#[trigger] self.col_seq(i)) == 45,
                forall|a: int, b: int|
                    0 <= a < 3 && 0 <= b < j ==> seq_sum(#[trigger] self.box_seq(3 * a, 3 * b))
                        == 45,
        {
            for i in 0..3u32
                invariant
                    self.wf(),
                    *self == *old(self),
                    j < 3,
                    forall|a: int, b: int|
                        0 <= a < 3 && 0 <= b < j ==> seq_sum(#[trigger] self.box_seq(3 * a, 3 * b))
                            == 45,
                    forall|a: int|
                        0 <= a < i ==> seq_sum(#[trigger] self.box_seq(3 * a, 3 * (j as int)))
                            == 45,
            {
                if !self.check_square(3 * i, 3 * j) {
                    return false;
                }
            }
        }
        true
    }

    /// Total number of cells with no value.
    #[verifier::loop_isolation(false)]
    pub fn count_empty(&self) -> (n: u32)
        requires
            self.dims_ok(),
        ensures
            n == self.spec_count_empty(),
    {
        let mut count: u32 = 0;
        for y in 0..9u32
            invariant
                self.dims_ok(),
                count == empties_upto(self.cells@, 9 * y),
                count <= 9 * y,
        {
            for x in 0..9u32
                invariant
                    self.dims_ok(),
                    y < 9,
                    count == empties_upto(self.cells@, 9 * y + x),
                    count <= 9 * y + x,
            {
                if self.is_empty(x, y) {
                    count += 1;
                }
                proof {
                    assert(empties_upto(self.cells@, 9 * y + x + 1) == empties_upto(
                        self.cells@,
                        9 * y + x,
                    ) + if self.cells@[9 * y + x].is_filled() {
                        0int
                    } else {
                        1int
                    });
                    assert(Grid::pos(x as int, y as int) == 9 * y + x);
                }
            }
        }
        count
    }

    /// Clears the `k`-th still-filled cell in row-major scan order, leaving
    /// every other cell untouched.
    #[verifier::loop_isolation(false)]
    pub(crate) fn clear_nth_filled(&mut self, k: u32)
        requires
            old(self).dims_ok(),
            k < 81 - old(self).spec_count_empty(),
        ensures
            final(self).width == old(self).width,
            final(self).height == old(self).height,
            exists|p: int|
                0 <= p < 81 && (#[trigger] old(self).cells@[p]).is_filled() && final(self).cells@
                    == old(self).cells@.update(p, (Cell { value: None, can_set: true })),
            final(self).spec_count_empty() == old(self).spec_count_empty() + 1,
    {
        let mut seen: u32 = 0;
        for i in 0..81u32
            invariant
                *self == *old(self),
                seen == i - empties_upto(self.cells@, i as int),
                seen <= k,
        {
            let x = i % 9;
            let y = i / 9;
            proof {
                vstd::arithmetic::div_mod::lemma_fundamental_div_mod(i as int, 9);
                vstd::arithmetic::div_mod::lemma_mod_bound(i as int, 9);
                assert(Grid::pos(x as int, y as int) == i);
                assert(empties_upto(self.cells@, i + 1) == empties_upto(self.cells@, i as int)
                    + if self.cells@[i as int].is_filled() {
                    0int
                } else {
                    1int
                });
            }
            if !self.is_empty(x, y) {
                if seen == k {
                    self.set_empty(x, y);
                    proof {
                        lemma_empties_update(
                            old(self).cells@,
                            i as int,
                            (Cell { value: None, can_set: true }),
                            81,
                        );
                    }
                    return;
                }
                seen += 1;
            }
        }
        proof {
            lemma_empties_bounds(self.cells@, 81);
        }
        assert(false);
    }
}



/// Two distinct board positions have distinct linear indices.
pub proof fn lemma_pos_injective(x1: int, y1: int, x2: int, y2: int)
    requires
        0 <= x1 < 9,
        0 <= y1 < 9,
        0 <= x2 < 9,
        0 <= y2 < 9,
        Grid::pos(x1, y1) == Grid::pos(x2, y2),
    ensures
        x1 == x2 && y1 == y2,
{
}

pub proof fn lemma_empties_bounds(s: Seq<Cell>, k: int)
    requires
        0 <= k,
    ensures
        0 <= empties_upto(s, k) <= k,
    decreases k,
{
    if k > 0 {
        lemma_empties_bounds(s, k - 1);
    }
}

/// How one cell update moves the running count of empty cells.
pub proof fn lemma_empties_update(s: Seq<Cell>, p: int, c: Cell, k: int)
    requires
        0 <= p < s.len(),
        0 <= k <= s.len(),
    ensures
        empties_upto(s.update(p, c), k) == empties_upto(s, k) + if p < k {
            (if c.is_filled() {
                0int
            } else {
                1int
            }) - (if s[p].is_filled() {
                0int
            } else {
                1int
            })
        } else {
            0int
        },
    decreases k,
{
    if k > 0 {
        lemma_empties_update(s, p, c, k - 1);
        if p == k - 1 {
            assert(s.update(p, c)[k - 1] == c);
        } else {
            assert(s.update(p, c)[k - 1] == s[k - 1]);
        }
    }
}

/// The running count is zero exactly when every cell seen so far is filled.
pub proof fn lemma_empties_none(s: Seq<Cell>, k: int)
    requires
        0 <= k,
    ensures
        (empties_upto(s, k) == 0) <==> (forall|i: int|
            0 <= i < k ==> (#[trigger] s[i]).is_filled()),
    decreases k,
{
    if k > 0 {
        lemma_empties_none(s, k - 1);
        lemma_empties_bounds(s, k - 1);
    }
}

/// A board with every cell empty has all its cells counted.
pub proof fn lemma_empties_all(s: Seq<Cell>, k: int)
    requires
        0 <= k,
        forall|i: int| 0 <= i < k ==> !(#[trigger] s[i]).is_filled(),
    ensures
        empties_upto(s, k) == k,
    decreases k,
{
    if k > 0 {
        lemma_empties_all(s, k - 1);
    }
}

/// A board is full exactly when its empty-cell count is zero.
pub proof fn lemma_full_count(g: Grid)
    requires
        g.dims_ok(),
    ensures
        g.full() <==> g.spec_count_empty() == 0,
{
    lemma_empties_none(g.cells@, 81);
    if g.full() {
        assert forall|i: int| 0 <= i < 81 implies (#[trigger] g.cells@[i]).is_filled() by {
            let x = i % 9;
            let y = i / 9;
            vstd::arithmetic::div_mod::lemma_fundamental_div_mod(i, 9);
            vstd::arithmetic::div_mod::lemma_mod_bound(i, 9);
            assert(g.filled(x, y));
            assert(Grid::pos(x, y) == i);
        }
    }
    if g.spec_count_empty() == 0 {
        assert forall|x: int, y: int| 0 <= x < 9 && 0 <= y < 9 implies #[trigger] g.filled(x, y) by {
            assert(g.cells@[Grid::pos(x, y)].is_filled());
        }
    }
}

/// Writing a digit that passes the placement test into an empty cell keeps
/// the whole board consistent.
pub proof fn lemma_place_preserves_consistent(g: Grid, g2: Grid, x: int, y: int, c: Cell)
    requires
        g.dims_ok(),
        g.consistent(),
        0 <= x < 9,
        0 <= y < 9,
        !g.filled(x, y),
        c.is_filled(),
        g.spec_can_place(x, y, c.spec_value()),
        g2.cells@ == g.cells@.update(Grid::pos(x, y), c),
    ensures
        g2.consistent(),
{
    let v = c.spec_value();
    assert forall|x1: int, y1: int, x2: int, y2: int|
        0 <= x1 < 9 && 0 <= y1 < 9 && 0 <= x2 < 9 && 0 <= y2 < 9 && !(x1 == x2 && y1 == y2)
            && same_unit(x1, y1, x2, y2) && g2.filled(x1, y1) && g2.filled(
            x2,
            y2,
        ) implies (#[trigger] g2.val_at(x1, y1)) != (#[trigger] g2.val_at(x2, y2)) by {
        let p1 = Grid::pos(x1, y1);
        let p2 = Grid::pos(x2, y2);
        let p = Grid::pos(x, y);
        if p1 != p && p2 != p {
            assert(g2.cells@[p1] == g.cells@[p1]);
            assert(g2.cells@[p2] == g.cells@[p2]);
            if x1 == x2 && y1 == y2 {
            } else {
                assert(g.val_at(x1, y1) != g.val_at(x2, y2));
            }
        } else if p1 == p {
            lemma_pos_injective(x1, y1, x, y);
            assert(p2 != p) by {
                if p2 == p {
                    lemma_pos_injective(x2, y2, x, y);
                }
            }
            assert(g2.cells@[p2] == g.cells@[p2]);
            assert(g2.val_at(x1, y1) == v);
            assert(g.val_at(x2, y2) != v) by {
                if y2 == y1 {
                } else if x2 == x1 {
                } else {
                    assert(in_box(x, y, x2, y2));
                }
            }
        } else {
            lemma_pos_injective(x2, y2, x, y);
            assert(g2.cells@[p1] == g.cells@[p1]);
            assert(g2.val_at(x2, y2) == v);
            assert(g.val_at(x1, y1) != v) by {
                if y1 == y2 {
                } else if x1 == x2 {
                } else {
                    assert(in_box(x, y, x1, y1));
                }
            }
        }
    }
}

/// Clearing a placement leaves no trace: placing `v` on an empty cell makes
/// the same placement invalid, and clearing that cell afterwards restores
/// exactly the board that was there before, so the placement test returns to
/// its earlier verdict.
pub proof fn lemma_clear_restores_placement(g: Grid, placed: Grid, cleared: Grid, x: int, y: int, v: u32)
    requires
        g.wf(),
        0 <= x < 9,
        0 <= y < 9,
        !g.filled(x, y),
        placed.cells@ == g.cells@.update(Grid::pos(x, y), (Cell { value: Some(v), can_set: false })),
        cleared.cells@ == placed.cells@.update(
            Grid::pos(x, y),
            (Cell { value: None, can_set: true }),
        ),
    ensures
        !placed.spec_can_place(x, y, v),
        cleared.cells@ == g.cells@,
        cleared.spec_can_place(x, y, v) == g.spec_can_place(x, y, v),
{
    assert(placed.val_at(x, y) == v);
    assert(cell_ok(g.cells@[Grid::pos(x, y)]));
    assert(g.cells@[Grid::pos(x, y)] == (Cell { value: None, can_set: true }));
    assert(cleared.cells@ =~= g.cells@);
    assert(forall|a: int, b: int|
        #![trigger cleared.val_at(a, b)]
        #![trigger g.val_at(a, b)]
        cleared.val_at(a, b) == g.val_at(a, b));
}

/// Consistency is a property of the cell sequence alone.
pub proof fn lemma_same_cells_consistent(g1: Grid, g2: Grid)
    requires
        g1.cells@ == g2.cells@,
    ensures
        g1.consistent() == g2.consistent(),
{
    assert(forall|a: int, b: int|
        #![trigger g1.val_at(a, b)]
        #![trigger g2.val_at(a, b)]
        g1.val_at(a, b) == g2.val_at(a, b));
    assert(forall|a: int, b: int|
        #![trigger g1.filled(a, b)]
        #![trigger g2.filled(a, b)]
        g1.filled(a, b) == g2.filled(a, b));
}

/// Emptying a cell never creates a conflict: consistency survives clearing.
pub proof fn lemma_clear_preserves_consistent(g: Grid, g2: Grid, p: int)
    requires
        g.dims_ok(),
        g.consistent(),
        0 <= p < 81,
        g2.cells@ == g.cells@.update(p, (Cell { value: None, can_set: true })),
    ensures
        g2.consistent(),
{
    assert forall|x1: int, y1: int, x2: int, y2: int|
        0 <= x1 < 9 && 0 <= y1 < 9 && 0 <= x2 < 9 && 0 <= y2 < 9 && !(x1 == x2 && y1 == y2)
            && same_unit(x1, y1, x2, y2) && g2.filled(x1, y1) && g2.filled(
            x2,
            y2,
        ) implies (#[trigger] g2.val_at(x1, y1)) != (#[trigger] g2.val_at(x2, y2)) by {
        let p1 = Grid::pos(x1, y1);
        let p2 = Grid::pos(x2, y2);
        assert(p1 != p && p2 != p);
        assert(g2.cells@[p1] == g.cells@[p1]);
        assert(g2.cells@[p2] == g.cells@[p2]);
        assert(g.val_at(x1, y1) != g.val_at(x2, y2));
    }
}

/// Two runs of the solved-state check on the same unmodified board agree:
/// the verdict is a function of the board alone.
pub proof fn lemma_solved_check_deterministic(g: Grid, r1: bool, r2: bool)
    requires
        r1 == g.spec_solved(),
        r2 == g.spec_solved(),
    ensures
        r1 == r2,
{
}

/// Every fully-filled, constraint-consistent board has each row, each column
/// and each box holding each digit 1..=9 exactly once, and therefore passes
/// the sum-based solved check.
pub proof fn lemma_full_consistent_is_solved(g: Grid)
    requires
        g.wf(),
        g.consistent(),
        g.full(),
    ensures
        forall|y: int| 0 <= y < 9 ==> is_perm_1_9(#[trigger] g.row_seq(y)),
        forall|x: int| 0 <= x < 9 ==> is_perm_1_9(#[trigger] g.col_seq(x)),
        forall|i: int, j: int|
            0 <= i < 3 && 0 <= j < 3 ==> is_perm_1_9(#[trigger] g.box_seq(3 * i, 3 * j)),
        g.spec_solved(),
{
    assert forall|y: int| 0 <= y < 9 implies is_perm_1_9(#[trigger] g.row_seq(y)) && seq_sum(
        g.row_seq(y),
    ) == 45 by {
        let s = g.row_seq(y);
        assert forall|i: int| 0 <= i < 9 implies 1 <= #[trigger] s[i] <= 9 by {
            assert(g.filled(i, y));
            assert(cell_ok(g.cells@[Grid::pos(i, y)]));
        }
        assert forall|i: int, j: int| 0 <= i < j < 9 implies s[i] != s[j] by {
            assert(g.filled(i, y) && g.filled(j, y));
            assert(same_unit(i, y, j, y));
            assert(g.val_at(i, y) != g.val_at(j, y));
        }
        lemma_distinct_digits_perm(s);
    }
    assert forall|x: int| 0 <= x < 9 implies is_perm_1_9(#[trigger] g.col_seq(x)) && seq_sum(
        g.col_seq(x),
    ) == 45 by {
        let s = g.col_seq(x);
        assert forall|i: int| 0 <= i < 9 implies 1 <= #[trigger] s[i] <= 9 by {
            assert(g.filled(x, i));
            assert(cell_ok(g.cells@[Grid::pos(x, i)]));
        }
        assert forall|i: int, j: int| 0 <= i < j < 9 implies s[i] != s[j] by {
            assert(g.filled(x, i) && g.filled(x, j));
            assert(same_unit(x, i, x, j));
            assert(g.val_at(x, i) != g.val_at(x, j));
        }
        lemma_distinct_digits_perm(s);
    }
    assert forall|bi: int, bj: int| 0 <= bi < 3 && 0 <= bj < 3 implies is_perm_1_9(
        #[trigger] g.box_seq(3 * bi, 3 * bj),
    ) && seq_sum(g.box_seq(3 * bi, 3 * bj)) == 45 by {
        let s = g.box_seq(3 * bi, 3 * bj);
        assert forall|k: int| 0 <= k < 9 implies 1 <= #[trigger] s[k] <= 9 && s[k] == g.val_at(
            3 * bi + k % 3,
            3 * bj + k / 3,
        ) by {
            vstd::arithmetic::div_mod::lemma_fundamental_div_mod(k, 3);
            vstd::arithmetic::div_mod::lemma_mod_bound(k, 3);
            let a = 3 * bi + k % 3;
            let b = 3 * bj + k / 3;
            assert(g.filled(a, b));
            assert(cell_ok(g.cells@[Grid::pos(a, b)]));
        }
        assert forall|k: int, l: int| 0 <= k < l < 9 implies s[k] != s[l] by {
            vstd::arithmetic::div_mod::lemma_fundamental_div_mod(k, 3);
            vstd::arithmetic::div_mod::lemma_mod_bound(k, 3);
            vstd::arithmetic::div_mod::lemma_fundamental_div_mod(l, 3);
            vstd::arithmetic::div_mod::lemma_mod_bound(l, 3);
            let a1 = 3 * bi + k % 3;
            let b1 = 3 * bj + k / 3;
            let a2 = 3 * bi + l % 3;
            let b2 = 3 * bj + l / 3;
            assert(!(a1 == a2 && b1 == b2));
            assert(a1 / 3 == a2 / 3 && b1 / 3 == b2 / 3) by {
                vstd::arithmetic::div_mod::lemma_fundamental_div_mod_converse(a1, 3, bi, k % 3);
                vstd::arithmetic::div_mod::lemma_fundamental_div_mod_converse(a2, 3, bi, l % 3);
                vstd::arithmetic::div_mod::lemma_fundamental_div_mod_converse(b1, 3, bj, k / 3);
                vstd::arithmetic::div_mod::lemma_fundamental_div_mod_converse(b2, 3, bj, l / 3);
            }
            assert(same_unit(a1, b1, a2, b2));
            assert(g.filled(a1, b1) && g.filled(a2, b2));
            assert(g.val_at(a1, b1) != g.val_at(a2, b2));
        }
        lemma_distinct_digits_perm(s);
    }
}

} // verus!

