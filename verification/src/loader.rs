//! The text form of a board: nine lines of nine digits, grouped in threes.

use crate::grid::{
    cell, has_digits_only, in_grid, lemma_grid_ext, lemma_with_cell, with_cell, Grid,
};
use vstd::prelude::*;

verus! {

// ---------------------------------------------------------------------------
// Reading
// ---------------------------------------------------------------------------

/// The number of characters of `s` that stand before its first line feed;
/// the length of `s` when it holds none.
pub open spec fn line_len(s: Seq<char>) -> nat
    decreases s.len(),
{
    if s.len() == 0 || s[0] == '\n' {
        0
    } else {
        1 + line_len(s.drop_first())
    }
}

/// The first line of `s`, without its line feed.
pub open spec fn first_line(s: Seq<char>) -> Seq<char> {
    s.take(line_len(s) as int)
}

/// What follows the first line of `s` and its line feed.
pub open spec fn after_first_line(s: Seq<char>) -> Seq<char> {
    if line_len(s) < s.len() {
        s.skip(line_len(s) as int + 1)
    } else {
        Seq::empty()
    }
}

/// A line that starts with `-` is a rule between two bands of boxes and
/// carries no cells.
pub open spec fn is_rule(line: Seq<char>) -> bool {
    line.len() > 0 && line[0] == '-'
}

/// The lines of `s` that carry cells, in order. A line ends at a line feed
/// or at the end of the text; a line feed at the very end opens no further
/// line.
pub open spec fn puzzle_lines(s: Seq<char>) -> Seq<Seq<char>>
    decreases s.len(),
{
    if s.len() == 0 {
        Seq::empty()
    } else if is_rule(first_line(s)) {
        puzzle_lines(after_first_line(s))
    } else {
        seq![first_line(s)] + puzzle_lines(after_first_line(s))
    }
}

/// A digit or a blank stands for a cell; every other character is
/// decoration.
pub open spec fn is_cell_char(c: char) -> bool {
    c == ' ' || ('0' <= c && c <= '9')
}

/// The cell that a character stands for: its value for `1` to `9`, empty for
/// `0` and for a blank.
pub open spec fn cell_value(c: char) -> usize {
    if '1' <= c && c <= '9' {
        (c as u32 - '0' as u32) as usize
    } else {
        0
    }
}

/// The cells that a line spells, from left to right.
pub open spec fn line_cells(line: Seq<char>) -> Seq<usize> {
    line.filter(|c: char| is_cell_char(c)).map_values(|c: char| cell_value(c))
}

/// The cell at column `x` of a line; empty where the line is too short.
pub open spec fn line_cell(line: Seq<char>, x: int) -> usize {
    if 0 <= x < line_cells(line).len() {
        line_cells(line)[x]
    } else {
        0
    }
}

/// The cell at row `y`, column `x` of the board that `s` spells; empty where
/// the text has too few lines or the line too few cells.
pub open spec fn parsed_cell(s: Seq<char>, y: int, x: int) -> usize {
    if 0 <= y < puzzle_lines(s).len() {
        line_cell(puzzle_lines(s)[y], x)
    } else {
        0
    }
}

/// The cell at `(y, x)` of the board read so far, when the lines `done` have
/// been read to their end and, of the line after them, the part `cur`.
pub open spec fn read_so_far(done: Seq<Seq<char>>, cur: Seq<char>, y: int, x: int) -> usize {
    if 0 <= y < done.len() {
        line_cell(done[y], x)
    } else if y == done.len() && !is_rule(cur) {
        line_cell(cur, x)
    } else {
        0
    }
}

/// A stretch without a line feed that ends at a line feed, or at the end of
/// the text, is the first line.
pub proof fn lemma_line_len(s: Seq<char>, k: int)
    requires
        0 <= k <= s.len(),
        forall|i: int| 0 <= i < k ==> s[i] != '\n',
        k == s.len() || s[k] == '\n',
    ensures
        line_len(s) == k,
    decreases k,
{
    if k > 0 {
        lemma_line_len(s.drop_first(), k - 1);
    }
}

/// One more character at the end of a line adds its cell, if it stands for
/// one.
pub proof fn lemma_line_cells_push(line: Seq<char>, c: char)
    ensures
        line_cells(line.push(c)) == if is_cell_char(c) {
            line_cells(line).push(cell_value(c))
        } else {
            line_cells(line)
        },
{
    let pred = |c: char| is_cell_char(c);
    line.lemma_filter_push(c, pred);
}

/// Reads a board from its text form.
///
/// The text is taken line by line. Lines that start with `-` are skipped;
/// the first nine of the others give the rows. Within a line the digits
/// `1` to `9` give filled cells, `0` and a blank give empty cells, and any
/// other character is passed over; the first nine cells of the line count.
/// Cells and rows that the text does not provide stay empty.
pub fn deserialize(source: &str) -> (grid: Grid)
    ensures
        forall|y: int, x: int|
            in_grid(y, x) ==> #[trigger] cell(grid, y, x) == parsed_cell(source@, y, x),
{
    let mut grid: Grid = [[0usize; 9]; 9];
    let mut row: usize = 0;
    let mut col: usize = 0;
    let mut at_start: bool = true;
    let mut rule: bool = false;
    // The lines read to their end, where the line being read starts, and
    // what has been read of it.
    let ghost mut done: Seq<Seq<char>> = Seq::empty();
    let ghost mut start: int = 0;
    let ghost mut cur: Seq<char> = Seq::empty();
    assert(source@.skip(0) =~= source@);
    for c in it: source.chars()
        invariant
            it.seq() == source@,
            0 <= start <= it.index(),
            cur == source@.subrange(start, it.index()),
            forall|i: int| 0 <= i < cur.len() ==> cur[i] != '\n',
            puzzle_lines(source@) == done + puzzle_lines(source@.skip(start)),
            row == done.len(),
            row < 9,
            at_start == (cur.len() == 0),
            rule == is_rule(cur),
            !rule ==> col == if line_cells(cur).len() < 9 {
                line_cells(cur).len()
            } else {
                9
            },
            forall|y: int, x: int|
                in_grid(y, x) ==> #[trigger] cell(grid, y, x) == read_so_far(done, cur, y, x),
    {
        let ghost s = source@;
        let ghost i = it.index();
        if c == '\n' {
            proof {
                let rest = s.skip(start);
                lemma_line_len(rest, i - start);
                assert(first_line(rest) =~= cur);
                assert(after_first_line(rest) =~= s.skip(i + 1));
                if !rule {
                    assert(done + (seq![cur] + puzzle_lines(s.skip(i + 1))) =~= done.push(cur)
                        + puzzle_lines(s.skip(i + 1)));
                    done = done.push(cur);
                }
                start = i + 1;
                cur = Seq::empty();
            }
            if !rule {
                row += 1;
                if row == 9 {
                    return grid;
                }
            }
            col = 0;
            at_start = true;
            rule = false;
        } else {
            proof {
                lemma_line_cells_push(cur, c);
            }
            if at_start {
                at_start = false;
                rule = c == '-';
            }
            let ghost kept = grid;
            if !rule && col < 9 {
                if '1' <= c && c <= '9' {
                    grid[row][col] = (c as u32 - '0' as u32) as usize;
                    col += 1;
                } else if c == '0' || c == ' ' {
                    grid[row][col] = 0;
                    col += 1;
                }
            }
            proof {
                if !rule && is_cell_char(c) && line_cells(cur).len() < 9 {
                    assert(grid == with_cell(kept, row as int, col - 1, cell_value(c)));
                    lemma_with_cell(kept, row as int, col - 1, cell_value(c));
                }
                cur = cur.push(c);
            }
        }
    }
    proof {
        let rest = source@.skip(start);
        if rest.len() > 0 {
            lemma_line_len(rest, rest.len() as int);
            assert(first_line(rest) =~= cur);
            assert(puzzle_lines(Seq::<char>::empty()) =~= Seq::<Seq<char>>::empty());
        }
    }
    grid
}

// ---------------------------------------------------------------------------
// Writing
// ---------------------------------------------------------------------------

/// The character that shows the digit `d`.
pub open spec fn digit_char(d: int) -> char {
    seq!['0', '1', '2', '3', '4', '5', '6', '7', '8', '9'][d]
}

/// The number `n` written in decimal digits. A cell of a board takes one
/// character.
pub open spec fn decimal(n: nat) -> Seq<char>
    decreases n,
{
    if n < 10 {
        seq![digit_char(n as int)]
    } else {
        decimal(n / 10).push(digit_char((n % 10) as int))
    }
}

/// The text of one row from column `x` on: the cells one after the other,
/// a bar after the third and after the sixth, a line feed at the end.
pub open spec fn row_text_from(row: Seq<usize>, x: int) -> Seq<char>
    decreases 9 - x,
{
    if x >= 9 {
        seq!['\n']
    } else {
        decimal(row[x] as nat) + (if x == 2 || x == 5 {
            seq!['|']
        } else {
            Seq::empty()
        }) + row_text_from(row, x + 1)
    }
}

/// The line that is written between two bands of boxes.
pub open spec fn rule_text() -> Seq<char> {
    "---+---+---\n"@
}

/// The text of the rows of `g` from row `y` on, with a rule after the third
/// row and after the sixth.
pub open spec fn grid_text_from(g: Grid, y: int) -> Seq<char>
    decreases 9 - y,
{
    if y >= 9 {
        Seq::empty()
    } else {
        row_text_from(g[y]@, 0) + (if y == 2 || y == 5 {
            rule_text()
        } else {
            Seq::empty()
        }) + grid_text_from(g, y + 1)
    }
}

/// The text form of `g`.
pub open spec fn grid_text(g: Grid) -> Seq<char> {
    grid_text_from(g, 0)
}

/// The character of a single digit, as a string.
fn digit_str(d: usize) -> (s: &'static str)
    requires
        d < 10,
    ensures
        s@ == seq![digit_char(d as int)],
{
    proof {
        reveal_strlit("0");
        reveal_strlit("1");
        reveal_strlit("2");
        reveal_strlit("3");
        reveal_strlit("4");
        reveal_strlit("5");
        reveal_strlit("6");
        reveal_strlit("7");
        reveal_strlit("8");
        reveal_strlit("9");
    }
    match d {
        0 => "0",
        1 => "1",
        2 => "2",
        3 => "3",
        4 => "4",
        5 => "5",
        6 => "6",
        7 => "7",
        8 => "8",
        _ => "9",
    }
}

/// Writes `n` in decimal digits at the end of `out`.
fn push_decimal(out: &mut String, n: usize)
    ensures
        final(out)@ == old(out)@ + decimal(n as nat),
    decreases n,
{
    if n >= 10 {
        push_decimal(out, n / 10);
    }
    out.append(digit_str(n % 10));
}

/// Writes a board as text: one line for each row, the cells as digits with
/// `0` for an empty cell, a bar between the boxes of a row, and a rule
/// between the bands of boxes.
pub fn serialize(grid: &Grid) -> (text: String)
    ensures
        text@ == grid_text(*grid),
{
    let mut output = String::new();
    let mut i: usize = 0;
    while i < 9
        invariant
            i <= 9,
            output@ + grid_text_from(*grid, i as int) == grid_text(*grid),
        decreases 9 - i,
    {
        let ghost above = output@;
        let mut j: usize = 0;
        while j < 9
            invariant
                i < 9,
                j <= 9,
                output@ + row_text_from(grid[i as int]@, j as int) == above + row_text_from(
                    grid[i as int]@,
                    0,
                ),
            decreases 9 - j,
        {
            let ghost left = output@;
            push_decimal(&mut output, grid[i][j]);
            if j == 2 || j == 5 {
                output.append("|");
            }
            proof {
                reveal_strlit("|");
                assert(left + row_text_from(grid[i as int]@, j as int) =~= output@
                    + row_text_from(grid[i as int]@, j + 1));
            }
            j += 1;
        }
        let ghost row_end = output@;
        output.append("\n");
        if i == 2 || i == 5 {
            output.append("---+---+---\n");
        }
        proof {
            reveal_strlit("\n");
            let rule = if i == 2 || i == 5 {
                rule_text()
            } else {
                Seq::<char>::empty()
            };
            assert(output@ =~= row_end + seq!['\n'] + rule);
            assert(above + grid_text_from(*grid, i as int) =~= output@ + grid_text_from(
                *grid,
                i + 1,
            ));
        }
        i += 1;
    }
    output
}

// ---------------------------------------------------------------------------
// Writing and reading back
// ---------------------------------------------------------------------------

/// The line that `serialize` writes for a row of single digits, without
/// its line feed.
pub open spec fn row_line(row: Seq<usize>) -> Seq<char> {
    seq![
        digit_char(row[0] as int),
        digit_char(row[1] as int),
        digit_char(row[2] as int),
        '|',
        digit_char(row[3] as int),
        digit_char(row[4] as int),
        digit_char(row[5] as int),
        '|',
        digit_char(row[6] as int),
        digit_char(row[7] as int),
        digit_char(row[8] as int),
    ]
}

/// The character of a digit stands for a cell with that digit, and is no
/// line feed and no dash.
pub proof fn lemma_digit_char(d: int)
    requires
        0 <= d <= 9,
    ensures
        is_cell_char(digit_char(d)),
        cell_value(digit_char(d)) == d,
        digit_char(d) != '\n',
        digit_char(d) != '-',
        digit_char(d) != '|',
{
}

/// The text of a row of single digits is its line and a line feed.
pub proof fn lemma_row_text(row: Seq<usize>)
    requires
        row.len() == 9,
        forall|i: int| 0 <= i < 9 ==> #[trigger] row[i] <= 9,
    ensures
        row_text_from(row, 0) == row_line(row).push('\n'),
{
    reveal_with_fuel(row_text_from, 10);
    assert forall|i: int| 0 <= i < 9 implies decimal(#[trigger] row[i] as nat) == seq![
        digit_char(row[i] as int),
    ] by {}
}

/// The line of a row of single digits spells that row.
pub proof fn lemma_row_line_cells(row: Seq<usize>)
    requires
        row.len() == 9,
        forall|i: int| 0 <= i < 9 ==> #[trigger] row[i] <= 9,
    ensures
        line_cells(row_line(row)) == row,
        !is_rule(row_line(row)),
        forall|i: int| 0 <= i < row_line(row).len() ==> row_line(row)[i] != '\n',
{
    assert forall|i: int| 0 <= i < 9 implies is_cell_char(digit_char(#[trigger] row[i] as int))
        && cell_value(digit_char(row[i] as int)) == row[i] && digit_char(row[i] as int) != '\n'
        && digit_char(row[i] as int) != '-' by {
        lemma_digit_char(row[i] as int);
    }
    let l0 = Seq::<char>::empty();
    let l1 = l0.push(digit_char(row[0] as int));
    lemma_line_cells_push(l0, digit_char(row[0] as int));
    let l2 = l1.push(digit_char(row[1] as int));
    lemma_line_cells_push(l1, digit_char(row[1] as int));
    let l3 = l2.push(digit_char(row[2] as int));
    lemma_line_cells_push(l2, digit_char(row[2] as int));
    let l4 = l3.push('|');
    lemma_line_cells_push(l3, '|');
    let l5 = l4.push(digit_char(row[3] as int));
    lemma_line_cells_push(l4, digit_char(row[3] as int));
    let l6 = l5.push(digit_char(row[4] as int));
    lemma_line_cells_push(l5, digit_char(row[4] as int));
    let l7 = l6.push(digit_char(row[5] as int));
    lemma_line_cells_push(l6, digit_char(row[5] as int));
    let l8 = l7.push('|');
    lemma_line_cells_push(l7, '|');
    let l9 = l8.push(digit_char(row[6] as int));
    lemma_line_cells_push(l8, digit_char(row[6] as int));
    let l10 = l9.push(digit_char(row[7] as int));
    lemma_line_cells_push(l9, digit_char(row[7] as int));
    let l11 = l10.push(digit_char(row[8] as int));
    lemma_line_cells_push(l10, digit_char(row[8] as int));
    assert(row_line(row) =~= l11);
}

/// A line without a line feed, a line feed and a rest: the lines of the
/// whole are that line, unless it is a rule, and the lines of the rest.
pub proof fn lemma_puzzle_lines_cons(line: Seq<char>, rest: Seq<char>)
    requires
        forall|i: int| 0 <= i < line.len() ==> line[i] != '\n',
    ensures
        puzzle_lines(line.push('\n') + rest) == if is_rule(line) {
            puzzle_lines(rest)
        } else {
            seq![line] + puzzle_lines(rest)
        },
{
    let s = line.push('\n') + rest;
    lemma_line_len(s, line.len() as int);
    assert(first_line(s) =~= line);
    assert(after_first_line(s) =~= rest);
}

/// The lines that `serialize` writes for the rows of `g` from row `y` on.
pub open spec fn row_lines_from(g: Grid, y: int) -> Seq<Seq<char>> {
    Seq::new((9 - y) as nat, |k: int| row_line(g[y + k]@))
}

/// Read back, the text of a board of single digits gives the lines of its
/// rows and nothing else.
pub proof fn lemma_grid_text_lines(g: Grid, y: int)
    requires
        0 <= y <= 9,
        has_digits_only(g),
    ensures
        puzzle_lines(grid_text_from(g, y)) == row_lines_from(g, y),
    decreases 9 - y,
{
    if y < 9 {
        let row = g[y]@;
        let rest = grid_text_from(g, y + 1);
        assert forall|i: int| 0 <= i < 9 implies #[trigger] row[i] <= 9 by {
            assert(cell(g, y, i) <= 9);
        }
        lemma_row_text(row);
        lemma_row_line_cells(row);
        lemma_grid_text_lines(g, y + 1);
        if y == 2 || y == 5 {
            reveal_strlit("---+---+---\n");
            let rule = seq!['-', '-', '-', '+', '-', '-', '-', '+', '-', '-', '-'];
            assert(grid_text_from(g, y) =~= row_line(row).push('\n') + (rule.push('\n') + rest));
            lemma_puzzle_lines_cons(rule, rest);
            lemma_puzzle_lines_cons(row_line(row), rule.push('\n') + rest);
        } else {
            lemma_puzzle_lines_cons(row_line(row), rest);
        }
    }
}

/// Reading gives back what writing was given: each cell that the text of a
/// board of single digits spells is the cell of that board.
pub proof fn lemma_text_spells_grid(g: Grid)
    requires
        has_digits_only(g),
    ensures
        forall|y: int, x: int|
            in_grid(y, x) ==> #[trigger] parsed_cell(grid_text(g), y, x) == cell(g, y, x),
{
    lemma_grid_text_lines(g, 0);
    assert forall|y: int, x: int| in_grid(y, x) implies #[trigger] parsed_cell(grid_text(g), y, x)
        == cell(g, y, x) by {
        let row = g[y]@;
        assert forall|i: int| 0 <= i < 9 implies #[trigger] row[i] <= 9 by {
            assert(cell(g, y, i) <= 9);
        }
        lemma_row_line_cells(row);
    }
}

/// Writing, reading and writing again gives the text of the first writing.
/// Here `back` is what `deserialize` makes of the text that `serialize`
/// gives for `g`; it is `g` itself.
pub proof fn lemma_text_round_trip(g: Grid, back: Grid)
    requires
        has_digits_only(g),
        forall|y: int, x: int|
            in_grid(y, x) ==> #[trigger] cell(back, y, x) == parsed_cell(grid_text(g), y, x),
    ensures
        back == g,
        grid_text(back) == grid_text(g),
{
    lemma_text_spells_grid(g);
    lemma_grid_ext(back, g);
}

} // verus!
