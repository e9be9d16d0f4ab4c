//! The placement rule and the backtracking solver built on it.

use crate::grid::{
    before, cell, has_digits_only, in_box, in_col, in_grid, in_row, is_consistent, is_solved,
    lemma_full_and_consistent_is_solved, lemma_grid_ext, lemma_with_cell, lemma_with_cell_same,
    lemma_with_cell_twice, same_box, sees, with_cell, Grid,
};
use vstd::prelude::*;

verus! {

// ---------------------------------------------------------------------------
// The placement rule
// ---------------------------------------------------------------------------

/// The placement rule: `n` may go to `(y, x)` when neither the row, nor the
/// column, nor the box of that cell holds `n` already. The cell itself is
/// read like any other cell of its row.
pub open spec fn can_place(g: Grid, y: int, x: int, n: usize) -> bool {
    !in_row(g, y, n) && !in_col(g, x, n) && !in_box(g, y, x, n)
}

/// The digit at `(y, x)` would be admitted there if the cell were empty.
pub open spec fn placement_passes(g: Grid, y: int, x: int) -> bool {
    can_place(with_cell(g, y, x, 0), y, x, cell(g, y, x))
}

/// Every digit on the board passes the placement rule at its cell.
pub open spec fn is_valid_grid(g: Grid) -> bool {
    forall|y: int, x: int|
        in_grid(y, x) && cell(g, y, x) != 0 ==> #[trigger] placement_passes(g, y, x)
}

/// Decides whether `n` may be placed at row `y`, column `x` of `grid`:
/// `false` if `n` stands anywhere in that row, in that column or in the box
/// around the cell, `true` otherwise.
///
/// The cell must lie on the board. What the cell itself holds is not set
/// aside: to ask about a digit that already stands there, clear the cell
/// first.
pub fn is_valid(grid: Grid, y: usize, x: usize, n: usize) -> (ok: bool)
    requires
        y < 9,
        x < 9,
    ensures
        ok == can_place(grid, y as int, x as int, n),
{
    let mut i: usize = 0;
    while i < 9
        invariant
            i <= 9,
            y < 9,
            x < 9,
            forall|k: int| 0 <= k < i ==> cell(grid, y as int, k) != n,
            forall|k: int| 0 <= k < i ==> cell(grid, k, x as int) != n,
        decreases 9 - i,
    {
        if grid[y][i] == n || grid[i][x] == n {
            assert(cell(grid, y as int, i as int) == n || cell(grid, i as int, x as int) == n);
            return false;
        }
        i += 1;
    }
    let box_y: usize = (y / 3) * 3;
    let box_x: usize = (x / 3) * 3;
    let mut i: usize = 0;
    while i < 3
        invariant
            i <= 3,
            box_y == (y / 3) * 3,
            box_x == (x / 3) * 3,
            y < 9,
            x < 9,
            forall|v: int, u: int|
                box_y <= v < box_y + i && box_x <= u < box_x + 3 ==> cell(grid, v, u) != n,
        decreases 3 - i,
    {
        let mut j: usize = 0;
        while j < 3
            invariant
                i < 3,
                j <= 3,
                box_y == (y / 3) * 3,
                box_x == (x / 3) * 3,
                y < 9,
                x < 9,
                forall|v: int, u: int|
                    box_y <= v < box_y + i && box_x <= u < box_x + 3 ==> cell(grid, v, u) != n,
                forall|v: int, u: int|
                    v == box_y + i && box_x <= u < box_x + j ==> cell(grid, v, u) != n,
            decreases 3 - j,
        {
            if grid[box_y + i][box_x + j] == n {
                assert(cell(grid, box_y + i, box_x + j) == n);
                return false;
            }
            j += 1;
        }
        i += 1;
    }
    assert forall|v: int, u: int|
        in_grid(v, u) && same_box(y as int, x as int, v, u) implies cell(grid, v, u) != n by {}
    true
}

/// The placement rule, said of cells: `n` may go to `(y, x)` when no cell
/// that `(y, x)` sees holds `n`.
pub proof fn lemma_can_place_by_cells(g: Grid, y: int, x: int, n: usize)
    requires
        in_grid(y, x),
    ensures
        can_place(g, y, x, n) <==> forall|v: int, u: int|
            in_grid(v, u) && sees(y, x, v, u) ==> #[trigger] cell(g, v, u) != n,
{
    if can_place(g, y, x, n) {
        assert forall|v: int, u: int| in_grid(v, u) && sees(y, x, v, u) implies #[trigger] cell(
            g,
            v,
            u,
        ) != n by {}
    }
}

/// A board passes the placement rule at every digit exactly when no digit
/// stands twice in a row, a column or a box.
pub proof fn lemma_valid_grid_is_consistent(g: Grid)
    ensures
        is_valid_grid(g) <==> is_consistent(g),
{
    if is_valid_grid(g) {
        assert forall|y: int, x: int, v: int, u: int|
            in_grid(y, x) && in_grid(v, u) && sees(y, x, v, u) && !(v == y && u == x)
                && cell(g, y, x) != 0 implies #[trigger] cell(g, y, x) != #[trigger] cell(
            g,
            v,
            u,
        ) by {
            assert(placement_passes(g, y, x));
            lemma_with_cell(g, y, x, 0);
            lemma_can_place_by_cells(with_cell(g, y, x, 0), y, x, cell(g, y, x));
            assert(cell(with_cell(g, y, x, 0), v, u) == cell(g, v, u));
        }
    }
    if is_consistent(g) {
        assert forall|y: int, x: int|
            in_grid(y, x) && cell(g, y, x) != 0 implies #[trigger] placement_passes(g, y, x) by {
            let cleared = with_cell(g, y, x, 0);
            lemma_with_cell(g, y, x, 0);
            lemma_can_place_by_cells(cleared, y, x, cell(g, y, x));
            assert forall|v: int, u: int|
                in_grid(v, u) && sees(y, x, v, u) implies #[trigger] cell(cleared, v, u) != cell(
                g,
                y,
                x,
            ) by {}
        }
    }
}

/// Taking digits away never turns a passing placement into a failing one:
/// where `b` is `a` with some cells cleared, a digit that is left and passed
/// on `a` passes on `b`.
pub proof fn lemma_clearing_keeps_placements(a: Grid, b: Grid, y: int, x: int)
    requires
        in_grid(y, x),
        forall|v: int, u: int|
            in_grid(v, u) ==> #[trigger] cell(b, v, u) == cell(a, v, u) || cell(b, v, u) == 0,
        cell(b, y, x) != 0,
        placement_passes(a, y, x),
    ensures
        placement_passes(b, y, x),
{
    let n = cell(b, y, x);
    lemma_with_cell(a, y, x, 0);
    lemma_with_cell(b, y, x, 0);
    lemma_can_place_by_cells(with_cell(a, y, x, 0), y, x, n);
    lemma_can_place_by_cells(with_cell(b, y, x, 0), y, x, n);
    assert forall|v: int, u: int| in_grid(v, u) && sees(y, x, v, u) implies #[trigger] cell(
        with_cell(b, y, x, 0),
        v,
        u,
    ) != n by {
        if !(v == y && u == x) {
            assert(cell(with_cell(a, y, x, 0), v, u) != n);
        }
    }
}

// ---------------------------------------------------------------------------
// What the solver looks for
// ---------------------------------------------------------------------------

/// The digit at `(y, x)` is one from 1 to 9, and no other cell of its row,
/// its column or its box holds the same.
pub open spec fn fits(g: Grid, y: int, x: int) -> bool {
    &&& 1 <= cell(g, y, x) <= 9
    &&& forall|v: int, u: int|
        in_grid(v, u) && sees(y, x, v, u) && !(v == y && u == x) ==> #[trigger] cell(g, v, u)
            != cell(g, y, x)
}

/// At `(y, x)` the board `end` keeps what `start` holds there, or, where
/// `start` is empty, holds a digit that fits.
pub open spec fn completes_cell(start: Grid, end: Grid, y: int, x: int) -> bool {
    if cell(start, y, x) != 0 {
        cell(end, y, x) == cell(start, y, x)
    } else {
        fits(end, y, x)
    }
}

/// `end` is `start` with every empty cell filled by a digit that fits. The
/// cells that `start` came with are kept as they are and are not examined.
pub open spec fn is_completion(start: Grid, end: Grid) -> bool {
    forall|y: int, x: int| in_grid(y, x) ==> #[trigger] completes_cell(start, end, y, x)
}

/// Some way of filling the empty cells of `start` exists.
pub open spec fn is_solvable(start: Grid) -> bool {
    exists|end: Grid| is_completion(start, end)
}

/// `a` and `b` agree on every cell before `(y, x)`, and at `(y, x)` the
/// board `a` holds the smaller value.
pub open spec fn smaller_at(a: Grid, b: Grid, y: int, x: int) -> bool {
    &&& in_grid(y, x)
    &&& cell(a, y, x) < cell(b, y, x)
    &&& forall|v: int, u: int|
        in_grid(v, u) && before(v, u, y, x) ==> #[trigger] cell(a, v, u) == cell(b, v, u)
}

/// `a` comes before `b` when boards are compared cell by cell, row by row,
/// at the first cell where they differ.
pub open spec fn comes_first(a: Grid, b: Grid) -> bool {
    exists|y: int, x: int| smaller_at(a, b, y, x)
}

/// `end` is the completion of `start` that comes before all the others.
pub open spec fn is_first_completion(start: Grid, end: Grid) -> bool {
    &&& is_completion(start, end)
    &&& forall|other: Grid| #[trigger]
        is_completion(start, other) ==> other == end || comes_first(end, other)
}

/// No completion of `start` holds a digit below `n` at `(y, x)`.
pub open spec fn none_below(start: Grid, y: int, x: int, n: int) -> bool {
    forall|end: Grid| #[trigger] is_completion(start, end) ==> cell(end, y, x) >= n
}

/// `end` holds every digit that `start` holds, at the same cell.
pub open spec fn extends(start: Grid, end: Grid) -> bool {
    forall|y: int, x: int|
        in_grid(y, x) && cell(start, y, x) != 0 ==> #[trigger] cell(end, y, x) == cell(
            start,
            y,
            x,
        )
}

/// How many of the first `k` cells of `g`, read row by row, are empty.
pub open spec fn empty_among(g: Grid, k: nat) -> nat
    decreases k,
{
    if k == 0 {
        0
    } else {
        empty_among(g, (k - 1) as nat) + if cell(g, (k - 1) / 9, (k - 1) % 9) == 0 {
            1nat
        } else {
            0nat
        }
    }
}

/// How many cells of `g` are empty. Each level of the search fills one.
pub open spec fn empty_count(g: Grid) -> nat {
    empty_among(g, 81)
}

// ---------------------------------------------------------------------------
// How a completion is found cell by cell
// ---------------------------------------------------------------------------

/// Filling an empty cell leaves one empty cell fewer.
pub proof fn lemma_fill_lowers_empty_count(g: Grid, y: int, x: int, n: usize, k: nat)
    requires
        in_grid(y, x),
        cell(g, y, x) == 0,
        n != 0,
        k <= 81,
    ensures
        empty_among(with_cell(g, y, x, n), k) + (if 9 * y + x < k {
            1nat
        } else {
            0nat
        }) == empty_among(g, k),
    decreases k,
{
    if k > 0 {
        lemma_fill_lowers_empty_count(g, y, x, n, (k - 1) as nat);
        lemma_with_cell(g, y, x, n);
    }
}

/// A completion of `start` holds, at an empty cell of `start`, a digit that
/// the placement rule admits there, and it completes the board with that
/// digit placed.
pub proof fn lemma_completion_passes_through(start: Grid, end: Grid, y: int, x: int)
    requires
        in_grid(y, x),
        cell(start, y, x) == 0,
        is_completion(start, end),
    ensures
        1 <= cell(end, y, x) <= 9,
        can_place(start, y, x, cell(end, y, x)),
        is_completion(with_cell(start, y, x, cell(end, y, x)), end),
{
    let m = cell(end, y, x);
    let next = with_cell(start, y, x, m);
    assert(completes_cell(start, end, y, x));
    assert forall|v: int, u: int| in_grid(v, u) && sees(y, x, v, u) implies #[trigger] cell(
        start,
        v,
        u,
    ) != m by {
        assert(completes_cell(start, end, v, u));
    }
    lemma_with_cell(start, y, x, m);
    assert forall|v: int, u: int| in_grid(v, u) implies #[trigger] completes_cell(
        next,
        end,
        v,
        u,
    ) by {
        assert(completes_cell(start, end, v, u));
    }
}

/// A completion of the board with an admitted digit placed in an empty cell
/// is a completion of the board without it.
pub proof fn lemma_completion_of_placement(start: Grid, end: Grid, y: int, x: int, n: usize)
    requires
        in_grid(y, x),
        cell(start, y, x) == 0,
        1 <= n <= 9,
        can_place(start, y, x, n),
        is_completion(with_cell(start, y, x, n), end),
    ensures
        is_completion(start, end),
        cell(end, y, x) == n,
{
    let next = with_cell(start, y, x, n);
    lemma_with_cell(start, y, x, n);
    assert(completes_cell(next, end, y, x));
    assert forall|v: int, u: int| in_grid(v, u) implies #[trigger] completes_cell(
        start,
        end,
        v,
        u,
    ) by {
        assert(completes_cell(next, end, v, u));
        if v == y && u == x {
            assert forall|q: int, p: int|
                in_grid(q, p) && sees(y, x, q, p) && !(q == y && p == x) implies #[trigger] cell(
                end,
                q,
                p,
            ) != cell(end, y, x) by {
                assert(completes_cell(next, end, q, p));
            }
        }
    }
}

/// A board without an empty cell has itself as its only completion.
pub proof fn lemma_full_board_completes_itself(g: Grid)
    requires
        forall|y: int, x: int| in_grid(y, x) ==> #[trigger] cell(g, y, x) != 0,
    ensures
        is_first_completion(g, g),
{
    assert forall|y: int, x: int| in_grid(y, x) implies #[trigger] completes_cell(g, g, y, x) by {}
    assert forall|other: Grid| #[trigger] is_completion(g, other) implies other == g by {
        assert forall|y: int, x: int| in_grid(y, x) implies #[trigger] cell(other, y, x) == cell(
            g,
            y,
            x,
        ) by {
            assert(completes_cell(g, other, y, x));
        }
        lemma_grid_ext(other, g);
    }
}

/// At the first empty cell, a digit that cannot be placed, or that leads
/// to a board without completion when placed, is the digit of no
/// completion.
pub proof fn lemma_digit_ruled_out(start: Grid, y: int, x: int, n: usize)
    requires
        in_grid(y, x),
        cell(start, y, x) == 0,
        none_below(start, y, x, n as int),
        !can_place(start, y, x, n) || !is_solvable(with_cell(start, y, x, n)),
    ensures
        none_below(start, y, x, n + 1),
{
    assert forall|end: Grid| #[trigger] is_completion(start, end) implies cell(end, y, x) >= n
        + 1 by {
        lemma_completion_passes_through(start, end, y, x);
    }
}

/// At the first empty cell, the lowest digit that leads to a completion
/// leads to the first one: the first completion of the board with that
/// digit placed is the first completion of the board.
pub proof fn lemma_first_completion_found(start: Grid, end: Grid, y: int, x: int, n: usize)
    requires
        in_grid(y, x),
        cell(start, y, x) == 0,
        forall|v: int, u: int|
            in_grid(v, u) && before(v, u, y, x) ==> #[trigger] cell(start, v, u) != 0,
        1 <= n <= 9,
        can_place(start, y, x, n),
        none_below(start, y, x, n as int),
        is_first_completion(with_cell(start, y, x, n), end),
    ensures
        is_first_completion(start, end),
{
    lemma_completion_of_placement(start, end, y, x, n);
    assert forall|other: Grid| #[trigger] is_completion(start, other) implies other == end
        || comes_first(end, other) by {
        lemma_completion_passes_through(start, other, y, x);
        if cell(other, y, x) != n {
            assert forall|v: int, u: int|
                in_grid(v, u) && before(v, u, y, x) implies #[trigger] cell(end, v, u) == cell(
                other,
                v,
                u,
            ) by {
                assert(completes_cell(start, end, v, u));
                assert(completes_cell(start, other, v, u));
            }
            assert(smaller_at(end, other, y, x));
        }
    }
}

/// A finished board that holds the digits of `start` is a completion of
/// `start`.
pub proof fn lemma_solved_extension_is_completion(start: Grid, end: Grid)
    requires
        is_solved(end),
        extends(start, end),
    ensures
        is_completion(start, end),
{
    assert forall|y: int, x: int| in_grid(y, x) implies #[trigger] completes_cell(
        start,
        end,
        y,
        x,
    ) by {
        if cell(start, y, x) == 0 {
            assert forall|v: int, u: int|
                in_grid(v, u) && sees(y, x, v, u) && !(v == y && u == x) implies #[trigger] cell(
                end,
                v,
                u,
            ) != cell(end, y, x) by {}
        }
    }
}

/// Where the digits of `start` are digits from 1 to 9 of which none stands
/// twice in a row, a column or a box, every completion of `start` is a
/// finished board that holds the digits of `start`.
pub proof fn lemma_completion_of_consistent_is_solved(start: Grid, end: Grid)
    requires
        is_consistent(start),
        has_digits_only(start),
        is_completion(start, end),
    ensures
        is_solved(end),
        extends(start, end),
{
    assert forall|y: int, x: int| in_grid(y, x) implies 1 <= #[trigger] cell(end, y, x) <= 9 by {
        assert(completes_cell(start, end, y, x));
    }
    assert forall|y: int, x: int|
        in_grid(y, x) && cell(start, y, x) != 0 implies #[trigger] cell(end, y, x) == cell(
        start,
        y,
        x,
    ) by {
        assert(completes_cell(start, end, y, x));
    }
    assert forall|y: int, x: int, v: int, u: int|
        in_grid(y, x) && in_grid(v, u) && sees(y, x, v, u) && !(v == y && u
            == x) implies #[trigger] cell(end, y, x) != #[trigger] cell(end, v, u) by {
        assert(completes_cell(start, end, y, x));
        assert(completes_cell(start, end, v, u));
    }
    lemma_full_and_consistent_is_solved(end);
}

// ---------------------------------------------------------------------------
// The solver
// ---------------------------------------------------------------------------

/// The first empty cell of `grid`, reading row by row.
fn first_empty(grid: &Grid) -> (found: Option<(usize, usize)>)
    ensures
        match found {
            Some((y, x)) => {
                &&& in_grid(y as int, x as int)
                &&& cell(*grid, y as int, x as int) == 0
                &&& forall|v: int, u: int|
                    in_grid(v, u) && before(v, u, y as int, x as int) ==> #[trigger] cell(
                        *grid,
                        v,
                        u,
                    ) != 0
            },
            None => forall|v: int, u: int| in_grid(v, u) ==> #[trigger] cell(*grid, v, u) != 0,
        },
{
    let mut y: usize = 0;
    while y < 9
        invariant
            y <= 9,
            forall|v: int, u: int| in_grid(v, u) && v < y ==> #[trigger] cell(*grid, v, u) != 0,
        decreases 9 - y,
    {
        let mut x: usize = 0;
        while x < 9
            invariant
                y < 9,
                x <= 9,
                forall|v: int, u: int|
                    in_grid(v, u) && before(v, u, y as int, x as int) ==> #[trigger] cell(
                        *grid,
                        v,
                        u,
                    ) != 0,
            decreases 9 - x,
        {
            if grid[y][x] == 0 {
                return Some((y, x));
            }
            x += 1;
        }
        y += 1;
    }
    None
}

/// Fills the empty cells of `grid` by depth-first search with backtracking
/// and says whether it found a way.
///
/// The search takes the first empty cell, reading row by row, tries the
/// digits 1 to 9 in rising order, places each one that `is_valid` admits
/// and goes on from there; a digit that leads nowhere is taken back. So it
/// reaches a completion whenever one exists, and of several the one that
/// comes first. Where none exists the board is handed back as it came.
///
/// The digits that the board comes with are not examined. Where they are
/// digits from 1 to 9 and none of them stands twice in a row, a column or a
/// box, a board that the search completes is a finished one.
pub fn solve(grid: &mut Grid) -> (found: bool)
    ensures
        found == is_solvable(*old(grid)),
        found ==> is_first_completion(*old(grid), *final(grid)),
        found && is_consistent(*old(grid)) && has_digits_only(*old(grid)) ==> is_solved(
            *final(grid),
        ),
        !found ==> *final(grid) == *old(grid),
    decreases empty_count(*old(grid)),
{
    let ghost start = *grid;
    let (y, x) = match first_empty(grid) {
        Some(place) => place,
        None => {
            proof {
                lemma_full_board_completes_itself(start);
                if is_consistent(start) && has_digits_only(start) {
                    lemma_completion_of_consistent_is_solved(start, start);
                }
            }
            return true;
        },
    };
    proof {
        assert forall|end: Grid| #[trigger] is_completion(start, end) implies cell(
            end,
            y as int,
            x as int,
        ) >= 1 by {
            lemma_completion_passes_through(start, end, y as int, x as int);
        }
    }
    let mut n: usize = 1;
    while n <= 9
        invariant
            1 <= n <= 10,
            in_grid(y as int, x as int),
            start == *old(grid),
            *grid == start,
            cell(start, y as int, x as int) == 0,
            forall|v: int, u: int|
                in_grid(v, u) && before(v, u, y as int, x as int) ==> #[trigger] cell(start, v, u)
                    != 0,
            none_below(start, y as int, x as int, n as int),
        decreases 10 - n,
    {
        if is_valid(*grid, y, x, n) {
            grid[y][x] = n;
            proof {
                lemma_fill_lowers_empty_count(start, y as int, x as int, n, 81);
            }
            if solve(grid) {
                proof {
                    lemma_first_completion_found(start, *grid, y as int, x as int, n);
                    if is_consistent(start) && has_digits_only(start) {
                        lemma_completion_of_consistent_is_solved(start, *grid);
                    }
                }
                return true;
            }
            grid[y][x] = 0;
            proof {
                lemma_with_cell_twice(start, y as int, x as int, n, 0);
                lemma_with_cell_same(start, y as int, x as int);
            }
        }
        proof {
            lemma_digit_ruled_out(start, y as int, x as int, n);
        }
        n += 1;
    }
    proof {
        assert forall|end: Grid| !is_completion(start, end) by {
            if is_completion(start, end) {
                lemma_completion_passes_through(start, end, y as int, x as int);
            }
        }
    }
    false
}

// ---------------------------------------------------------------------------
// Laws of the solver
// ---------------------------------------------------------------------------

/// Of two different boards only one comes before the other.
pub proof fn lemma_comes_first_one_way(a: Grid, b: Grid)
    requires
        comes_first(a, b),
    ensures
        !comes_first(b, a),
        a != b,
{
    let (y, x) = choose|y: int, x: int| smaller_at(a, b, y, x);
    if comes_first(b, a) {
        let (v, u) = choose|v: int, u: int| smaller_at(b, a, v, u);
        // Whichever of the two cells comes first, the boards agree there and
        // differ there.
        if before(y, x, v, u) {
            assert(cell(b, y, x) == cell(a, y, x));
        } else if before(v, u, y, x) {
            assert(cell(a, v, u) == cell(b, v, u));
        } else {
            assert(y == v && x == u);
        }
    }
}

/// The solver is deterministic: what `solve` promises of its result fixes
/// the result. Two runs from the same board give the same answer and leave
/// the same board.
pub proof fn lemma_solve_is_deterministic(
    start: Grid,
    end1: Grid,
    found1: bool,
    end2: Grid,
    found2: bool,
)
    requires
        found1 == is_solvable(start),
        found1 ==> is_first_completion(start, end1),
        !found1 ==> end1 == start,
        found2 == is_solvable(start),
        found2 ==> is_first_completion(start, end2),
        !found2 ==> end2 == start,
    ensures
        found1 == found2,
        end1 == end2,
{
    if found1 && end1 != end2 {
        lemma_comes_first_one_way(end1, end2);
    }
}

/// On a board whose digits are digits from 1 to 9 of which none stands
/// twice in a row, a column or a box, `solve` answers whether a finished
/// board with these digits exists.
pub proof fn lemma_solvable_means_has_solution(start: Grid)
    requires
        is_consistent(start),
        has_digits_only(start),
    ensures
        is_solvable(start) <==> exists|end: Grid| #[trigger] is_solved(end) && extends(start, end),
{
    if is_solvable(start) {
        let end = choose|end: Grid| is_completion(start, end);
        lemma_completion_of_consistent_is_solved(start, end);
    }
    if exists|end: Grid| #[trigger] is_solved(end) && extends(start, end) {
        let end = choose|end: Grid| #[trigger] is_solved(end) && extends(start, end);
        lemma_solved_extension_is_completion(start, end);
    }
}

/// The solver is correct on a puzzle with one solution: where `solution` is
/// the only finished board that holds the digits of `start`, what `solve`
/// promises of its result makes the answer `true` and the board it leaves
/// `solution`.
pub proof fn lemma_unique_solution_is_found(start: Grid, solution: Grid, end: Grid, found: bool)
    requires
        is_solved(solution),
        extends(start, solution),
        forall|other: Grid| #[trigger]
            is_solved(other) && extends(start, other) ==> other == solution,
        found == is_solvable(start),
        found ==> is_first_completion(start, end),
        !found ==> end == start,
    ensures
        found,
        end == solution,
{
    lemma_solved_extension_is_completion(start, solution);
    assert forall|y: int, x: int, v: int, u: int|
        in_grid(y, x) && in_grid(v, u) && sees(y, x, v, u) && !(v == y && u == x) && cell(
            start,
            y,
            x,
        ) != 0 implies #[trigger] cell(start, y, x) != #[trigger] cell(start, v, u) by {
        assert(cell(solution, y, x) != cell(solution, v, u));
    }
    assert forall|y: int, x: int| in_grid(y, x) implies #[trigger] cell(start, y, x) <= 9 by {
        if cell(start, y, x) != 0 {
            assert(cell(solution, y, x) == cell(start, y, x));
        }
    }
    lemma_completion_of_consistent_is_solved(start, end);
}

} // verus!
