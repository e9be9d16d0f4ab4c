//! Making a puzzle: a full board from a shuffled row, then cells taken away.

use crate::grid::{
    cell, in_grid, is_solved, lemma_full_and_consistent_is_solved, lemma_with_cell,
    lemma_with_cell_same, sees, with_cell, Grid,
};
use crate::random::shuffle;
use crate::validators::{
    can_place, is_completion, is_solvable, is_valid, is_valid_grid,
    lemma_clearing_keeps_placements, lemma_completion_passes_through,
    lemma_valid_grid_is_consistent, placement_passes,
};
use vstd::prelude::*;

verus! {

// ---------------------------------------------------------------------------
// A full board
// ---------------------------------------------------------------------------

/// The digits 1 to 9 in some order.
pub open spec fn is_digit_permutation(s: Seq<usize>) -> bool {
    &&& s.len() == 9
    &&& s.no_duplicates()
    &&& forall|i: int| 0 <= i < 9 ==> 1 <= #[trigger] s[i] <= 9
}

/// By how many places each row is rotated against the first one. Within a
/// band of three rows the rotations differ by three, so that a box never
/// meets a seed position twice; from band to band they move on by one.
pub open spec fn row_shift(y: int) -> int {
    seq![0int, 3, 6, 1, 4, 7, 2, 5, 8][y]
}

/// The cell at `(y, x)` of the board grown from `seed`: row `y` is the seed
/// rotated to the left by `row_shift(y)`.
pub open spec fn seeded_cell(seed: Seq<usize>, y: int, x: int) -> usize {
    seed[(x + row_shift(y)) % 9]
}

/// A rearrangement of values that are all different holds as many values,
/// all different, and each of them one of those that were rearranged.
pub proof fn lemma_rearranged(s: Seq<usize>, of: Seq<usize>)
    requires
        s.to_multiset() == of.to_multiset(),
        of.no_duplicates(),
    ensures
        s.len() == of.len(),
        s.no_duplicates(),
        forall|i: int| 0 <= i < s.len() ==> of.contains(#[trigger] s[i]),
{
    of.lemma_multiset_has_no_duplicates();
    s.lemma_multiset_has_no_duplicates_conv();
    s.to_multiset_ensures();
    of.to_multiset_ensures();
    assert forall|i: int| 0 <= i < s.len() implies of.contains(#[trigger] s[i]) by {
        assert(of.to_multiset().count(s[i]) > 0);
    }
}

/// A rearrangement of the digits 1 to 9 is a digit permutation.
pub proof fn lemma_shuffled_digits(s: Seq<usize>)
    requires
        s.to_multiset() == seq![1usize, 2, 3, 4, 5, 6, 7, 8, 9].to_multiset(),
    ensures
        is_digit_permutation(s),
{
    let digits = seq![1usize, 2, 3, 4, 5, 6, 7, 8, 9];
    assert(digits.len() == 9);
    assert(digits.no_duplicates());
    lemma_rearranged(s, digits);
    assert forall|i: int| 0 <= i < 9 implies 1 <= #[trigger] s[i] <= 9 by {
        assert(digits.contains(s[i]));
    }
}

/// The board grown from a digit permutation is a finished board.
pub proof fn lemma_seeded_grid_is_solved(g: Grid, seed: Seq<usize>)
    requires
        is_digit_permutation(seed),
        forall|y: int, x: int|
            in_grid(y, x) ==> #[trigger] cell(g, y, x) == seeded_cell(seed, y, x),
    ensures
        is_solved(g),
{
    assert forall|y: int| 0 <= y < 9 implies row_shift(y) == 3 * (y % 3) + y / 3 by {}
    assert forall|y: int, x: int, v: int, u: int|
        in_grid(y, x) && in_grid(v, u) && sees(y, x, v, u) && !(v == y && u
            == x) implies #[trigger] cell(g, y, x) != #[trigger] cell(g, v, u) by {
        let i = (x + row_shift(y)) % 9;
        let j = (u + row_shift(v)) % 9;
        assert(i != j);
        assert(seed[i] != seed[j]);
    }
    lemma_full_and_consistent_is_solved(g);
}

/// The row that holds, at each place `i`, what `seed` holds `offset` places
/// further on, going round at the end.
fn shifted(seed: &[usize; 9], offset: usize) -> (row: [usize; 9])
    requires
        offset < 9,
    ensures
        forall|i: int| 0 <= i < 9 ==> row[i] == seed[(i + offset) % 9],
{
    let mut row: [usize; 9] = [0; 9];
    let mut i: usize = 0;
    while i < 9
        invariant
            i <= 9,
            offset < 9,
            forall|k: int| 0 <= k < i ==> row[k] == seed[(k + offset) % 9],
        decreases 9 - i,
    {
        row[i] = seed[(i + offset) % 9];
        i += 1;
    }
    row
}

/// Grows a board from its first row: row `y` of the board is `seed` rotated
/// by `row_shift(y)`. Where the seed is a digit permutation the board is a
/// finished one.
pub fn grid_from_seed(seed: [usize; 9]) -> (grid: Grid)
    ensures
        forall|y: int, x: int|
            in_grid(y, x) ==> #[trigger] cell(grid, y, x) == seeded_cell(seed@, y, x),
        is_digit_permutation(seed@) ==> is_solved(grid),
{
    let grid: Grid = [
        seed,
        shifted(&seed, 3),
        shifted(&seed, 6),
        shifted(&seed, 1),
        shifted(&seed, 4),
        shifted(&seed, 7),
        shifted(&seed, 2),
        shifted(&seed, 5),
        shifted(&seed, 8),
    ];
    proof {
        assert forall|y: int, x: int| in_grid(y, x) implies #[trigger] cell(grid, y, x)
            == seeded_cell(seed@, y, x) by {}
        if is_digit_permutation(seed@) {
            lemma_seeded_grid_is_solved(grid, seed@);
        }
    }
    grid
}

/// The digits 1 to 9 in a random order.
fn generate_first_row() -> (row: [usize; 9])
    ensures
        is_digit_permutation(row@),
{
    let mut rng = rand::thread_rng();
    let mut row: [usize; 9] = [1, 2, 3, 4, 5, 6, 7, 8, 9];
    assert(row@ =~= seq![1usize, 2, 3, 4, 5, 6, 7, 8, 9]);
    shuffle(&mut row, &mut rng);
    proof {
        lemma_shuffled_digits(row@);
    }
    row
}

/// Makes a finished board at random: a random first row, and the board
/// grown from it.
pub fn generate_grid() -> (grid: Grid)
    ensures
        is_solved(grid),
        is_valid_grid(grid),
        is_digit_permutation(grid[0]@),
        forall|y: int, x: int|
            in_grid(y, x) ==> #[trigger] cell(grid, y, x) == seeded_cell(grid[0]@, y, x),
{
    let seed = generate_first_row();
    let grid = grid_from_seed(seed);
    proof {
        lemma_valid_grid_is_consistent(grid);
        assert(grid[0]@ =~= seed@) by {
            assert forall|x: int| 0 <= x < 9 implies grid[0]@[x] == seed@[x] by {
                assert(cell(grid, 0, x) == seeded_cell(seed@, 0, x));
            }
        }
    }
    grid
}

// ---------------------------------------------------------------------------
// What could stand in a cell
// ---------------------------------------------------------------------------

/// The digits below `n` that the placement rule admits at `(y, x)` once
/// that cell is cleared.
pub open spec fn candidates_below(g: Grid, y: int, x: int, n: int) -> Set<usize> {
    Set::new(|m: usize| 1 <= m < n && can_place(with_cell(g, y, x, 0), y, x, m))
}

/// The digits that the placement rule admits at `(y, x)` once that cell is
/// cleared.
pub open spec fn candidates(g: Grid, y: int, x: int) -> Set<usize> {
    candidates_below(g, y, x, 10)
}

/// The candidates below `n + 1` are those below `n`, and `n` if it is
/// admitted; there are finitely many.
pub proof fn lemma_candidates_step(g: Grid, y: int, x: int, n: usize)
    requires
        1 <= n <= 9,
        candidates_below(g, y, x, n as int).finite(),
    ensures
        candidates_below(g, y, x, n + 1).finite(),
        candidates_below(g, y, x, n + 1).len() == candidates_below(g, y, x, n as int).len() + (
        if can_place(with_cell(g, y, x, 0), y, x, n) {
            1nat
        } else {
            0nat
        }),
{
    let below = candidates_below(g, y, x, n as int);
    if can_place(with_cell(g, y, x, 0), y, x, n) {
        assert(candidates_below(g, y, x, n + 1) =~= below.insert(n));
    } else {
        assert(candidates_below(g, y, x, n + 1) =~= below);
    }
}

/// A cell has finitely many candidates, nine at most.
pub proof fn lemma_candidates_finite(g: Grid, y: int, x: int, n: usize)
    requires
        1 <= n <= 10,
    ensures
        candidates_below(g, y, x, n as int).finite(),
        candidates_below(g, y, x, n as int).len() < n,
    decreases n,
{
    if n == 1 {
        assert(candidates_below(g, y, x, 1) =~= Set::<usize>::empty());
    } else {
        lemma_candidates_finite(g, y, x, (n - 1) as usize);
        lemma_candidates_step(g, y, x, (n - 1) as usize);
    }
}

/// Counts the digits from 1 to 9 that could stand at `(y, x)` if that cell
/// were empty. The caller's board is not touched: the cell is cleared on a
/// copy.
pub fn num_possibilities(grid: Grid, y: usize, x: usize) -> (count: u32)
    requires
        y < 9,
        x < 9,
    ensures
        candidates(grid, y as int, x as int).finite(),
        count == candidates(grid, y as int, x as int).len(),
        count <= 9,
        count == 0 <==> forall|n: usize|
            1 <= n <= 9 ==> !can_place(
                with_cell(grid, y as int, x as int, 0),
                y as int,
                x as int,
                n,
            ),
{
    let mut cleared = grid;
    cleared[y][x] = 0;
    assert(cleared == with_cell(grid, y as int, x as int, 0));
    let mut count: u32 = 0;
    let mut n: usize = 1;
    proof {
        lemma_candidates_finite(grid, y as int, x as int, 1);
    }
    while n <= 9
        invariant
            1 <= n <= 10,
            y < 9,
            x < 9,
            cleared == with_cell(grid, y as int, x as int, 0),
            candidates_below(grid, y as int, x as int, n as int).finite(),
            count == candidates_below(grid, y as int, x as int, n as int).len(),
            count < n,
        decreases 10 - n,
    {
        proof {
            lemma_candidates_step(grid, y as int, x as int, n);
        }
        if is_valid(cleared, y, x, n) {
            count += 1;
        }
        n += 1;
    }
    proof {
        let digits = candidates(grid, y as int, x as int);
        if count == 0 {
            assert forall|n: usize| 1 <= n <= 9 implies !can_place(
                with_cell(grid, y as int, x as int, 0),
                y as int,
                x as int,
                n,
            ) by {
                assert(!digits.contains(n));
            }
        } else {
            assert(digits.contains(digits.choose()));
        }
    }
    count
}

/// A cell for which the placement rule admits no digit has no candidate.
pub proof fn lemma_blocked_cell_has_no_candidate(g: Grid, y: int, x: int)
    requires
        forall|n: usize| 1 <= n <= 9 ==> !can_place(with_cell(g, y, x, 0), y, x, n),
    ensures
        candidates(g, y, x).len() == 0,
{
    assert(candidates(g, y, x) =~= Set::<usize>::empty());
}

/// A board with an empty cell that has no candidate cannot be completed, so
/// `solve`, which answers whether the board is solvable, answers `false`.
pub proof fn lemma_blocked_cell_is_unsolvable(g: Grid, y: int, x: int)
    requires
        in_grid(y, x),
        cell(g, y, x) == 0,
        candidates(g, y, x).len() == 0,
    ensures
        !is_solvable(g),
{
    assert forall|end: Grid| !is_completion(g, end) by {
        if is_completion(g, end) {
            lemma_completion_passes_through(g, end, y, x);
            lemma_with_cell_same(g, y, x);
            lemma_candidates_finite(g, y, x, 10);
            assert(candidates(g, y, x).contains(cell(end, y, x)));
        }
    }
}

// ---------------------------------------------------------------------------
// Taking cells away
// ---------------------------------------------------------------------------

/// One visit of the removal: the cell at `(y, x)` is cleared where at most
/// one digit could stand there, and kept otherwise.
pub open spec fn clear_if_forced(g: Grid, y: int, x: int) -> Grid {
    if candidates(g, y, x).len() <= 1 {
        with_cell(g, y, x, 0)
    } else {
        g
    }
}

/// The board after the first `k` visits of a removal that goes through the
/// rows in the order `order` and, within each row, through the columns in
/// the same order.
pub open spec fn swept(g: Grid, order: Seq<usize>, k: nat) -> Grid
    decreases k,
{
    if k == 0 {
        g
    } else {
        clear_if_forced(
            swept(g, order, (k - 1) as nat),
            order[(k - 1) / 9] as int,
            order[(k - 1) % 9] as int,
        )
    }
}

/// The numbers 0 to 8 in some order.
pub open spec fn is_index_permutation(s: Seq<usize>) -> bool {
    &&& s.len() == 9
    &&& s.no_duplicates()
    &&& forall|i: int| 0 <= i < 9 ==> #[trigger] s[i] < 9
}

/// All that a removal does is clear cells.
pub open spec fn only_clears(before: Grid, after: Grid) -> bool {
    forall|y: int, x: int|
        in_grid(y, x) ==> #[trigger] cell(after, y, x) == cell(before, y, x) || cell(after, y, x)
            == 0
}

/// A rearrangement of the numbers 0 to 8 is an index permutation.
pub proof fn lemma_shuffled_indexes(s: Seq<usize>)
    requires
        s.to_multiset() == seq![0usize, 1, 2, 3, 4, 5, 6, 7, 8].to_multiset(),
    ensures
        is_index_permutation(s),
{
    let indexes = seq![0usize, 1, 2, 3, 4, 5, 6, 7, 8];
    assert(indexes.len() == 9);
    assert(indexes.no_duplicates());
    lemma_rearranged(s, indexes);
    assert forall|i: int| 0 <= i < 9 implies #[trigger] s[i] < 9 by {
        assert(indexes.contains(s[i]));
    }
}

/// Whatever the order, a removal only clears cells.
pub proof fn lemma_swept_only_clears(g: Grid, order: Seq<usize>, k: nat)
    requires
        order.len() == 9,
        forall|i: int| 0 <= i < 9 ==> #[trigger] order[i] < 9,
        k <= 81,
    ensures
        only_clears(g, swept(g, order, k)),
    decreases k,
{
    if k > 0 {
        let prev = swept(g, order, (k - 1) as nat);
        lemma_swept_only_clears(g, order, (k - 1) as nat);
        let y = order[(k - 1) / 9] as int;
        let x = order[(k - 1) % 9] as int;
        lemma_with_cell(prev, y, x, 0);
        assert forall|v: int, u: int| in_grid(v, u) implies #[trigger] cell(
            swept(g, order, k),
            v,
            u,
        ) == cell(g, v, u) || cell(swept(g, order, k), v, u) == 0 by {}
    }
}

/// Removal never spoils a placement: a digit that is left on the board
/// after a removal, and that passed the placement rule before it, passes
/// the rule after it.
pub proof fn lemma_removal_keeps_placements(g: Grid, order: Seq<usize>, y: int, x: int)
    requires
        order.len() == 9,
        forall|i: int| 0 <= i < 9 ==> #[trigger] order[i] < 9,
        in_grid(y, x),
        cell(swept(g, order, 81), y, x) != 0,
        placement_passes(g, y, x),
    ensures
        cell(swept(g, order, 81), y, x) == cell(g, y, x),
        placement_passes(swept(g, order, 81), y, x),
{
    lemma_swept_only_clears(g, order, 81);
    lemma_clearing_keeps_placements(g, swept(g, order, 81), y, x);
}

/// Goes through the cells `(order[a], order[b])`, for `a` from 0 to 8 and,
/// for each `a`, `b` from 0 to 8, and clears each cell for which, on the
/// board as it then stands, at most one digit could stand there.
pub fn remove_numbers_in_order(grid: &mut Grid, order: &[usize; 9])
    requires
        forall|i: int| 0 <= i < 9 ==> #[trigger] order[i] < 9,
    ensures
        *final(grid) == swept(*old(grid), order@, 81),
        only_clears(*old(grid), *final(grid)),
        is_valid_grid(*old(grid)) ==> is_valid_grid(*final(grid)),
{
    let ghost start = *grid;
    let mut a: usize = 0;
    while a < 9
        invariant
            a <= 9,
            forall|i: int| 0 <= i < 9 ==> #[trigger] order[i] < 9,
            *grid == swept(start, order@, (9 * a) as nat),
        decreases 9 - a,
    {
        let i = order[a];
        let mut b: usize = 0;
        while b < 9
            invariant
                a < 9,
                b <= 9,
                i == order[a as int],
                forall|i: int| 0 <= i < 9 ==> #[trigger] order[i] < 9,
                *grid == swept(start, order@, (9 * a + b) as nat),
            decreases 9 - b,
        {
            let j = order[b];
            let ghost k = (9 * a + b) as nat;
            assert(k / 9 == a && k % 9 == b);
            if num_possibilities(*grid, i, j) <= 1 {
                grid[i][j] = 0;
            }
            assert(*grid == swept(start, order@, k + 1));
            b += 1;
        }
        a += 1;
    }
    proof {
        lemma_swept_only_clears(start, order@, 81);
        if is_valid_grid(start) {
            assert forall|y: int, x: int|
                in_grid(y, x) && cell(*grid, y, x) != 0 implies #[trigger] placement_passes(
                *grid,
                y,
                x,
            ) by {
                lemma_clearing_keeps_placements(start, *grid, y, x);
            }
        }
    }
}

/// Turns a full board into a puzzle. The numbers 0 to 8 are put into a
/// random order, and the cells are visited as `remove_numbers_in_order`
/// does with that order: the one order serves for the rows and for the
/// columns. A cell is cleared where at most one digit could stand in it on
/// the board as it stands at that visit.
///
/// Every cell is visited once, but the visits come in one of the 9! orders
/// that a single shuffle of nine indexes gives, not in any order of the 81
/// cells. How many cells are cleared follows from the order and is not
/// aimed at, and nothing is promised about the number of solutions of the
/// puzzle: only that each cleared cell had at most one candidate when it
/// was cleared, and that no digit that stays is spoiled.
pub fn remove_numbers(grid: &mut Grid)
    ensures
        exists|order: Seq<usize>|
            is_index_permutation(order) && *final(grid) == #[trigger] swept(
                *old(grid),
                order,
                81,
            ),
        only_clears(*old(grid), *final(grid)),
        forall|y: int, x: int|
            in_grid(y, x) && cell(*final(grid), y, x) != 0 && placement_passes(*old(grid), y, x)
                ==> #[trigger] placement_passes(*final(grid), y, x),
        is_valid_grid(*old(grid)) ==> is_valid_grid(*final(grid)),
{
    let mut rng = rand::thread_rng();
    let mut indexes: [usize; 9] = [0, 1, 2, 3, 4, 5, 6, 7, 8];
    assert(indexes@ =~= seq![0usize, 1, 2, 3, 4, 5, 6, 7, 8]);
    shuffle(&mut indexes, &mut rng);
    proof {
        lemma_shuffled_indexes(indexes@);
    }
    remove_numbers_in_order(grid, &indexes);
    proof {
        assert forall|y: int, x: int|
            in_grid(y, x) && cell(*grid, y, x) != 0 && placement_passes(
                *old(grid),
                y,
                x,
            ) implies #[trigger] placement_passes(*grid, y, x) by {
            lemma_clearing_keeps_placements(*old(grid), *grid, y, x);
        }
    }
}

} // verus!
