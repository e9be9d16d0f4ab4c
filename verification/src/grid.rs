//! The board and the vocabulary in which the contracts speak about it.

use vstd::prelude::*;
use vstd::set_lib::{
    lemma_int_range, lemma_set_subset_finite, lemma_subset_equality, set_int_range,
};

verus! {

/// Nine rows of nine cells. A cell holds 0 when it is empty and a digit from
/// 1 to 9 when it is filled.
pub type Grid = [[usize; 9]; 9];

/// `(y, x)` names a cell of the board: row `y`, column `x`.
pub open spec fn in_grid(y: int, x: int) -> bool {
    0 <= y < 9 && 0 <= x < 9
}

/// The value at row `y`, column `x`.
pub open spec fn cell(g: Grid, y: int, x: int) -> usize {
    g[y][x]
}

/// The board that holds `n` at `(y, x)` and agrees with `g` everywhere else.
pub open spec fn with_cell(g: Grid, y: int, x: int, n: usize) -> Grid {
    vstd::array::spec_array_update(g, y, vstd::array::spec_array_update(g[y], x, n))
}

/// `(v, u)` lies in the same 3×3 box as `(y, x)`.
pub open spec fn same_box(y: int, x: int, v: int, u: int) -> bool {
    y / 3 == v / 3 && x / 3 == u / 3
}

/// `(v, u)` lies in the row, in the column or in the box of `(y, x)`.
pub open spec fn sees(y: int, x: int, v: int, u: int) -> bool {
    v == y || u == x || same_box(y, x, v, u)
}

/// `(v, u)` comes before `(y, x)` when the cells are read row by row.
pub open spec fn before(v: int, u: int, y: int, x: int) -> bool {
    v < y || (v == y && u < x)
}

/// `n` occurs somewhere in row `y`.
pub open spec fn in_row(g: Grid, y: int, n: usize) -> bool {
    exists|u: int| 0 <= u < 9 && #[trigger] cell(g, y, u) == n
}

/// `n` occurs somewhere in column `x`.
pub open spec fn in_col(g: Grid, x: int, n: usize) -> bool {
    exists|v: int| 0 <= v < 9 && #[trigger] cell(g, v, x) == n
}

/// `n` occurs somewhere in the 3×3 box that contains `(y, x)`.
pub open spec fn in_box(g: Grid, y: int, x: int, n: usize) -> bool {
    exists|v: int, u: int| in_grid(v, u) && same_box(y, x, v, u) && #[trigger] cell(g, v, u) == n
}

/// Every cell of `g` holds a digit from 1 to 9.
pub open spec fn is_filled(g: Grid) -> bool {
    forall|y: int, x: int| in_grid(y, x) ==> 1 <= #[trigger] cell(g, y, x) <= 9
}

/// Every cell of `g` is empty or holds a digit from 1 to 9.
pub open spec fn has_digits_only(g: Grid) -> bool {
    forall|y: int, x: int| in_grid(y, x) ==> #[trigger] cell(g, y, x) <= 9
}

/// No digit stands twice in a row, in a column or in a box of `g`.
pub open spec fn is_consistent(g: Grid) -> bool {
    forall|y: int, x: int, v: int, u: int|
        in_grid(y, x) && in_grid(v, u) && sees(y, x, v, u) && !(v == y && u == x) && cell(g, y, x)
            != 0 ==> #[trigger] cell(g, y, x) != #[trigger] cell(g, v, u)
}

/// Every row, every column and every box of `g` holds each digit from 1 to 9.
pub open spec fn has_every_digit(g: Grid) -> bool {
    &&& forall|y: int, d: usize| 0 <= y < 9 && 1 <= d <= 9 ==> #[trigger] in_row(g, y, d)
    &&& forall|x: int, d: usize| 0 <= x < 9 && 1 <= d <= 9 ==> #[trigger] in_col(g, x, d)
    &&& forall|y: int, x: int, d: usize|
        in_grid(y, x) && 1 <= d <= 9 ==> #[trigger] in_box(g, y, x, d)
}

/// `g` is a finished board: every row, every column and every box holds each
/// digit from 1 to 9 exactly once.
pub open spec fn is_solved(g: Grid) -> bool {
    is_filled(g) && is_consistent(g) && has_every_digit(g)
}

/// Nine different digits are all the digits.
pub proof fn lemma_nine_distinct_digits(s: Seq<int>)
    requires
        s.len() == 9,
        s.no_duplicates(),
        forall|i: int| 0 <= i < 9 ==> 1 <= #[trigger] s[i] <= 9,
    ensures
        forall|d: int| 1 <= d <= 9 ==> s.contains(d),
{
    let digits = set_int_range(1, 10);
    s.unique_seq_to_set();
    lemma_int_range(1, 10);
    assert(s.to_set().subset_of(digits)) by {
        assert forall|a: int| s.to_set().contains(a) implies digits.contains(a) by {
            let i = choose|i: int| 0 <= i < s.len() && s[i] == a;
            assert(1 <= s[i] <= 9);
        }
    }
    lemma_set_subset_finite(digits, s.to_set());
    lemma_subset_equality(s.to_set(), digits);
    assert forall|d: int| 1 <= d <= 9 implies s.contains(d) by {
        assert(s.to_set().contains(d));
    }
}

/// A board that is full and has no digit twice in a row, a column or a box
/// has every digit in each of them.
pub proof fn lemma_full_and_consistent_is_solved(g: Grid)
    requires
        is_filled(g),
        is_consistent(g),
    ensures
        is_solved(g),
{
    assert forall|y: int, d: usize| 0 <= y < 9 && 1 <= d <= 9 implies #[trigger] in_row(
        g,
        y,
        d,
    ) by {
        let s = Seq::new(9, |u: int| cell(g, y, u) as int);
        assert(s.no_duplicates());
        assert forall|i: int| 0 <= i < 9 implies 1 <= #[trigger] s[i] <= 9 by {}
        lemma_nine_distinct_digits(s);
        assert(s.contains(d as int));
        let u = choose|u: int| 0 <= u < s.len() && s[u] == d as int;
        assert(cell(g, y, u) == d);
    }
    assert forall|x: int, d: usize| 0 <= x < 9 && 1 <= d <= 9 implies #[trigger] in_col(
        g,
        x,
        d,
    ) by {
        let s = Seq::new(9, |v: int| cell(g, v, x) as int);
        assert(s.no_duplicates());
        assert forall|i: int| 0 <= i < 9 implies 1 <= #[trigger] s[i] <= 9 by {}
        lemma_nine_distinct_digits(s);
        assert(s.contains(d as int));
        let v = choose|v: int| 0 <= v < s.len() && s[v] == d as int;
        assert(cell(g, v, x) == d);
    }
    assert forall|y: int, x: int, d: usize|
        in_grid(y, x) && 1 <= d <= 9 implies #[trigger] in_box(g, y, x, d) by {
        let top = y / 3 * 3;
        let left = x / 3 * 3;
        let s = Seq::new(9, |k: int| cell(g, top + k / 3, left + k % 3) as int);
        assert(s.no_duplicates());
        assert forall|i: int| 0 <= i < 9 implies 1 <= #[trigger] s[i] <= 9 by {}
        lemma_nine_distinct_digits(s);
        assert(s.contains(d as int));
        let k = choose|k: int| 0 <= k < s.len() && s[k] == d as int;
        assert(cell(g, top + k / 3, left + k % 3) == d);
    }
}

/// Two boards with the same cells are the same board.
pub proof fn lemma_grid_ext(a: Grid, b: Grid)
    requires
        forall|y: int, x: int| in_grid(y, x) ==> #[trigger] cell(a, y, x) == cell(b, y, x),
    ensures
        a == b,
{
    assert forall|y: int| 0 <= y < 9 implies a[y] == b[y] by {
        assert forall|x: int| 0 <= x < 9 implies a[y][x] == b[y][x] by {
            assert(cell(a, y, x) == cell(b, y, x));
        }
    }
}

/// What `with_cell` changes and what it keeps.
pub proof fn lemma_with_cell(g: Grid, y: int, x: int, n: usize)
    requires
        in_grid(y, x),
    ensures
        cell(with_cell(g, y, x, n), y, x) == n,
        forall|v: int, u: int|
            in_grid(v, u) && !(v == y && u == x) ==> #[trigger] cell(with_cell(g, y, x, n), v, u)
                == cell(g, v, u),
{
}

/// Writing back what a cell already holds changes nothing.
pub proof fn lemma_with_cell_same(g: Grid, y: int, x: int)
    requires
        in_grid(y, x),
    ensures
        with_cell(g, y, x, cell(g, y, x)) == g,
{
    lemma_with_cell(g, y, x, cell(g, y, x));
    lemma_grid_ext(with_cell(g, y, x, cell(g, y, x)), g);
}

/// The second of two writes to one cell is the one that stays.
pub proof fn lemma_with_cell_twice(g: Grid, y: int, x: int, n: usize, m: usize)
    requires
        in_grid(y, x),
    ensures
        with_cell(with_cell(g, y, x, n), y, x, m) == with_cell(g, y, x, m),
{
    lemma_with_cell(g, y, x, n);
    lemma_with_cell(with_cell(g, y, x, n), y, x, m);
    lemma_with_cell(g, y, x, m);
    lemma_grid_ext(with_cell(with_cell(g, y, x, n), y, x, m), with_cell(g, y, x, m));
}

} // verus!
