use vstd::prelude::*;

use crate::cell::Cell;
use crate::grid::{
    cell_ok, in_box, lemma_div3_window, lemma_full_consistent_is_solved, lemma_pos_injective,
    same_unit, Grid,
};
use vstd::arithmetic::div_mod::{
    lemma_fundamental_div_mod, lemma_fundamental_div_mod_converse, lemma_mod_bound,
};

verus! {

/// A complete digit assignment that solves the board `s`: one digit 1..=9
/// per position, no repeated digit in any row, column or box, and agreement
/// with every digit the board already holds.
pub open spec fn solves(f: Seq<u32>, s: Seq<Cell>) -> bool {
    &&& f.len() == 81
    &&& forall|p: int| 0 <= p < 81 ==> 1 <= #[trigger] f[p] <= 9
    &&& forall|x1: int, y1: int, x2: int, y2: int|
        0 <= x1 < 9 && 0 <= y1 < 9 && 0 <= x2 < 9 && 0 <= y2 < 9 && !(x1 == x2 && y1 == y2)
            && same_unit(x1, y1, x2, y2) ==> (#[trigger] f[Grid::pos(x1, y1)]) != (#[trigger] f[
            Grid::pos(x2, y2)
        ])
    &&& forall|x: int, y: int|
        0 <= x < 9 && 0 <= y < 9 && (#[trigger] s[Grid::pos(x, y)]).is_filled() ==> f[Grid::pos(
            x,
            y,
        )] == s[Grid::pos(x, y)].spec_value()
}

/// Whether the board admits at least one full, conflict-free completion.
pub open spec fn completable(s: Seq<Cell>) -> bool {
    exists|f: Seq<u32>| solves(f, s)
}

/// The digit the shifted base pattern puts at linear position `p`: row `y`
/// holds the base row 1..9 rotated by `3 * (y % 3) + y / 3`.
pub open spec fn pattern_digit(p: int) -> u32 {
    ((((p % 9) + 3 * ((p / 9) % 3) + (p / 9) / 3) % 9) + 1) as u32
}

/// Two distinct non-negative numbers less than 9 apart have distinct
/// residues modulo 9.
proof fn lemma_mod9_distinct(a: int, b: int)
    requires
        0 <= a,
        0 <= b,
        a != b,
        -9 < a - b < 9,
    ensures
        a % 9 != b % 9,
{
    lemma_fundamental_div_mod(a, 9);
    lemma_fundamental_div_mod(b, 9);
    lemma_mod_bound(a, 9);
    lemma_mod_bound(b, 9);
}

/// An all-empty board is completable: the shifted base pattern solves it.
pub proof fn lemma_empty_board_completable(s: Seq<Cell>)
    requires
        s.len() == 81,
        forall|p: int| 0 <= p < 81 ==> !(#[trigger] s[p]).is_filled(),
    ensures
        completable(s),
{
    let f = Seq::new(81, |p: int| pattern_digit(p));
    assert forall|p: int| 0 <= p < 81 implies 1 <= #[trigger] f[p] <= 9 by {
        lemma_mod_bound(p, 9);
        lemma_fundamental_div_mod(p, 9);
        lemma_mod_bound(p / 9, 3);
        lemma_fundamental_div_mod(p / 9, 3);
        lemma_mod_bound((p % 9) + 3 * ((p / 9) % 3) + (p / 9) / 3, 9);
    }
    assert forall|x1: int, y1: int, x2: int, y2: int|
        0 <= x1 < 9 && 0 <= y1 < 9 && 0 <= x2 < 9 && 0 <= y2 < 9 && !(x1 == x2 && y1 == y2)
            && same_unit(x1, y1, x2, y2) implies (#[trigger] f[Grid::pos(x1, y1)]) != (#[trigger] f[
        Grid::pos(x2, y2)
    ]) by {
        let p1 = Grid::pos(x1, y1);
        let p2 = Grid::pos(x2, y2);
        lemma_fundamental_div_mod_converse(p1, 9, y1, x1);
        lemma_fundamental_div_mod_converse(p2, 9, y2, x2);
        lemma_mod_bound(y1, 3);
        lemma_mod_bound(y2, 3);
        lemma_fundamental_div_mod(y1, 3);
        lemma_fundamental_div_mod(y2, 3);
        let a1 = x1 + 3 * (y1 % 3) + y1 / 3;
        let a2 = x2 + 3 * (y2 % 3) + y2 / 3;
        assert(f[p1] == ((a1 % 9) + 1) as u32);
        assert(f[p2] == ((a2 % 9) + 1) as u32);
        if y1 == y2 {
            lemma_mod9_distinct(a1, a2);
        } else if x1 == x2 {
            assert(a1 != a2);
            lemma_mod9_distinct(a1, a2);
        } else {
            assert(x1 / 3 == x2 / 3 && y1 / 3 == y2 / 3);
            lemma_div3_window(x1, x2);
            assert(y1 % 3 != y2 % 3);
            assert(a1 != a2);
            lemma_mod9_distinct(a1, a2);
        }
        lemma_mod_bound(a1, 9);
        lemma_mod_bound(a2, 9);
    }
    assert(solves(f, s));
}

/// A full, consistent board that kept every digit of `s_old` witnesses that
/// `s_old` was completable.
pub proof fn lemma_solved_grid_completable(s_old: Seq<Cell>, g: Grid)
    requires
        s_old.len() == 81,
        g.wf(),
        g.consistent(),
        g.full(),
        forall|p: int| 0 <= p < 81 && (#[trigger] s_old[p]).is_filled() ==> g.cells@[p] == s_old[p],
    ensures
        completable(s_old),
{
    let f = Seq::new(81, |p: int| g.cells@[p].spec_value());
    assert forall|p: int| 0 <= p < 81 implies 1 <= #[trigger] f[p] <= 9 by {
        let x = p % 9;
        let y = p / 9;
        lemma_fundamental_div_mod(p, 9);
        lemma_mod_bound(p, 9);
        assert(g.filled(x, y));
        assert(Grid::pos(x, y) == p);
        assert(cell_ok(g.cells@[p]));
    }
    assert forall|x1: int, y1: int, x2: int, y2: int|
        0 <= x1 < 9 && 0 <= y1 < 9 && 0 <= x2 < 9 && 0 <= y2 < 9 && !(x1 == x2 && y1 == y2)
            && same_unit(x1, y1, x2, y2) implies (#[trigger] f[Grid::pos(x1, y1)]) != (#[trigger] f[
        Grid::pos(x2, y2)
    ]) by {
        assert(g.filled(x1, y1) && g.filled(x2, y2));
        assert(g.val_at(x1, y1) != g.val_at(x2, y2));
        assert(0 <= Grid::pos(x1, y1) < 81 && 0 <= Grid::pos(x2, y2) < 81);
    }
    assert forall|x: int, y: int|
        0 <= x < 9 && 0 <= y < 9 && (#[trigger] s_old[Grid::pos(x, y)]).is_filled() implies f[
        Grid::pos(x, y)
    ] == s_old[Grid::pos(x, y)].spec_value() by {
        assert(0 <= Grid::pos(x, y) < 81);
        assert(g.cells@[Grid::pos(x, y)] == s_old[Grid::pos(x, y)]);
    }
    assert(solves(f, s_old));
}

/// A full board that still admits a completion is that completion, so it
/// passes the solved check: refilling every carved cell with the digit the
/// solution captured before carving put there yields a solved board.
pub proof fn lemma_full_completable_is_solved(g: Grid)
    requires
        g.wf(),
        g.full(),
        completable(g.cells@),
    ensures
        g.consistent(),
        g.spec_solved(),
{
    let f = choose|f: Seq<u32>| solves(f, g.cells@);
    assert forall|x1: int, y1: int, x2: int, y2: int|
        0 <= x1 < 9 && 0 <= y1 < 9 && 0 <= x2 < 9 && 0 <= y2 < 9 && !(x1 == x2 && y1 == y2)
            && same_unit(x1, y1, x2, y2) && g.filled(x1, y1) && g.filled(
            x2,
            y2,
        ) implies (#[trigger] g.val_at(x1, y1)) != (#[trigger] g.val_at(x2, y2)) by {
        assert(g.cells@[Grid::pos(x1, y1)].is_filled());
        assert(g.cells@[Grid::pos(x2, y2)].is_filled());
        assert(f[Grid::pos(x1, y1)] == g.val_at(x1, y1));
        assert(f[Grid::pos(x2, y2)] == g.val_at(x2, y2));
        assert(f[Grid::pos(x1, y1)] != f[Grid::pos(x2, y2)]);
    }
    assert(g.consistent());
    lemma_full_consistent_is_solved(g);
}

/// A candidate the placement test rejects appears in no completion of the
/// board: some filled cell of the same unit already holds it.
pub(crate) proof fn lemma_blocked_candidate(g: Grid, x: int, y: int, v: u32, f: Seq<u32>)
    requires
        g.dims_ok(),
        0 <= x < 9,
        0 <= y < 9,
        !g.filled(x, y),
        1 <= v <= 9,
        !g.spec_can_place(x, y, v),
        solves(f, g.cells@),
    ensures
        f[Grid::pos(x, y)] != v,
{
    if !(forall|i: int| 0 <= i < 9 ==> (#[trigger] g.val_at(i, y)) != v) {
        let i = choose|i: int| 0 <= i < 9 && g.val_at(i, y) == v;
        assert(g.cells@[Grid::pos(i, y)].is_filled());
        assert(f[Grid::pos(i, y)] == v);
        assert(i != x);
        assert(same_unit(i, y, x, y));
        assert(f[Grid::pos(i, y)] != f[Grid::pos(x, y)]);
    } else if !(forall|j: int| 0 <= j < 9 ==> (#[trigger] g.val_at(x, j)) != v) {
        let j = choose|j: int| 0 <= j < 9 && g.val_at(x, j) == v;
        assert(g.cells@[Grid::pos(x, j)].is_filled());
        assert(f[Grid::pos(x, j)] == v);
        assert(j != y);
        assert(same_unit(x, j, x, y));
        assert(f[Grid::pos(x, j)] != f[Grid::pos(x, y)]);
    } else {
        let (a, b) = choose|a: int, b: int| in_box(x, y, a, b) && #[trigger] g.val_at(a, b) == v;
        assert(g.cells@[Grid::pos(a, b)].is_filled());
        assert(f[Grid::pos(a, b)] == v);
        assert(!(a == x && b == y));
        assert(same_unit(a, b, x, y));
        assert(f[Grid::pos(a, b)] != f[Grid::pos(x, y)]);
    }
}

/// A candidate whose placement leads to an uncompletable board appears in no
/// completion either: any completion assigning it at `(x, y)` would complete
/// the placed board too.
pub(crate) proof fn lemma_failed_branch(
    s0: Seq<Cell>,
    s1: Seq<Cell>,
    x: int,
    y: int,
    v: u32,
    f: Seq<u32>,
)
    requires
        s0.len() == 81,
        0 <= x < 9,
        0 <= y < 9,
        !s0[Grid::pos(x, y)].is_filled(),
        s1 == s0.update(Grid::pos(x, y), (Cell { value: Some(v), can_set: false })),
        !completable(s1),
        solves(f, s0),
    ensures
        f[Grid::pos(x, y)] != v,
{
    if f[Grid::pos(x, y)] == v {
        assert forall|a: int, b: int|
            0 <= a < 9 && 0 <= b < 9 && (#[trigger] s1[Grid::pos(a, b)]).is_filled() implies f[
            Grid::pos(a, b)
        ] == s1[Grid::pos(a, b)].spec_value() by {
            if Grid::pos(a, b) == Grid::pos(x, y) {
                lemma_pos_injective(a, b, x, y);
            } else {
                assert(s1[Grid::pos(a, b)] == s0[Grid::pos(a, b)]);
            }
        }
        assert(solves(f, s1));
        assert(completable(s1));
        assert(false);
    }
}

} // verus!
