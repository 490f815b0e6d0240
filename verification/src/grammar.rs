//! The grammar of a map text.
//!
//! A map text is cut into lines at every line feed. The first line holds the
//! player's column and row, the second the boxes' columns and rows in pairs,
//! and every further line is one row of the grid, written with `0` for a wall,
//! `1` for a road and `2` for a target. Within a line, words are separated by
//! white space.

use vstd::prelude::*;
use crate::model::{Actions, Board, Entities};
use crate::text::joined;

verus! {

/// Why a map text is not a board.
#[derive(Debug, Clone, Copy, PartialEq, Eq, Structural)]
pub enum ParseError {
    /// The text has fewer than two lines.
    MissingLine,
    /// A word of the first two lines is no number that the machine can hold.
    InvalidNumber,
    /// The first line does not hold exactly two numbers, or the second holds
    /// an odd count of them.
    WrongTokenCount,
    /// A word of a grid row is none of `0`, `1` and `2`.
    InvalidCell,
    /// Two rows of the grid differ in width.
    RaggedRows,
    /// The player or a box is off the grid or on a wall, or two boxes share a
    /// cell.
    OutOfPlace,
}

/// White space, as Unicode defines it.
pub open spec fn is_space(c: char) -> bool {
    let u = c as u32;
    ||| 0x09 <= u <= 0x0D
    ||| u == 0x20
    ||| u == 0x85
    ||| u == 0xA0
    ||| u == 0x1680
    ||| 0x2000 <= u <= 0x200A
    ||| u == 0x2028
    ||| u == 0x2029
    ||| u == 0x202F
    ||| u == 0x205F
    ||| u == 0x3000
}

/// The lines of a text: the pieces between its line feeds. A text without a
/// line feed is one line; a text that ends in a line feed ends in an empty
/// line.
pub open spec fn lines(s: Seq<char>) -> Seq<Seq<char>>
    decreases s.len(),
{
    if s.len() == 0 {
        seq![Seq::empty()]
    } else {
        let before = lines(s.drop_last());
        if s.last() == '\n' {
            before.push(Seq::empty())
        } else {
            before.drop_last().push(before.last().push(s.last()))
        }
    }
}

/// Reading a line from the left: the words completed so far, and the word
/// under way (empty between words).
pub open spec fn scan(s: Seq<char>) -> (Seq<Seq<char>>, Seq<char>)
    decreases s.len(),
{
    if s.len() == 0 {
        (Seq::empty(), Seq::empty())
    } else {
        let (done, word) = scan(s.drop_last());
        if !is_space(s.last()) {
            (done, word.push(s.last()))
        } else if word.len() > 0 {
            (done.push(word), Seq::empty())
        } else {
            (done, word)
        }
    }
}

/// The words of a line: its maximal runs of characters that are no white
/// space, from left to right.
pub open spec fn words(s: Seq<char>) -> Seq<Seq<char>> {
    let (done, word) = scan(s);
    if word.len() > 0 {
        done.push(word)
    } else {
        done
    }
}

/// `c` is one of the ten decimal digits.
pub open spec fn is_digit(c: char) -> bool {
    '0' as u32 <= c as u32 <= '9' as u32
}

/// The number that a run of decimal digits writes.
pub open spec fn decimal(w: Seq<char>) -> nat
    decreases w.len(),
{
    if w.len() == 0 {
        0
    } else {
        decimal(w.drop_last()) * 10 + (w.last() as u32 - '0' as u32) as nat
    }
}

/// The number that a run of characters writes without a sign: decimal digits,
/// at least one; `None` for any other run and for a number beyond the largest
/// `usize`.
pub open spec fn unsigned(digits: Seq<char>) -> Option<usize> {
    if digits.len() > 0 && (forall|i: int| 0 <= i < digits.len() ==> is_digit(#[trigger] digits[i]))
        && decimal(digits) <= usize::MAX {
        Some(decimal(digits) as usize)
    } else {
        None
    }
}

/// The number that a word writes: an unsigned number, or one after a single
/// plus sign.
pub open spec fn number(w: Seq<char>) -> Option<usize> {
    if w.len() > 0 && w[0] == '+' {
        unsigned(w.drop_first())
    } else {
        unsigned(w)
    }
}

/// The numbers that a list of words writes, if every word writes one.
pub open spec fn numbers(ws: Seq<Seq<char>>) -> Option<Seq<usize>> {
    if forall|i: int| 0 <= i < ws.len() ==> number(#[trigger] ws[i]) is Some {
        Some(Seq::new(ws.len(), |i: int| number(ws[i])->0))
    } else {
        None
    }
}

/// The cell that a word writes.
pub open spec fn cell_of(w: Seq<char>) -> Option<Entities> {
    if w == seq!['0'] {
        Some(Entities::Wall)
    } else if w == seq!['1'] {
        Some(Entities::Road)
    } else if w == seq!['2'] {
        Some(Entities::Target)
    } else {
        None
    }
}

/// The row of cells that a list of words writes, if every word writes one.
pub open spec fn row_of(ws: Seq<Seq<char>>) -> Option<Seq<Entities>> {
    if forall|i: int| 0 <= i < ws.len() ==> cell_of(#[trigger] ws[i]) is Some {
        Some(Seq::new(ws.len(), |i: int| cell_of(ws[i])->0))
    } else {
        None
    }
}

/// The grid that a list of lines writes, if every line writes a row.
pub open spec fn grid_of(ls: Seq<Seq<char>>) -> Option<Seq<Seq<Entities>>> {
    if forall|y: int| 0 <= y < ls.len() ==> row_of(words(#[trigger] ls[y])) is Some {
        Some(Seq::new(ls.len(), |y: int| row_of(words(ls[y]))->0))
    } else {
        None
    }
}

/// A flat list of numbers read as coordinates, two by two; a number left over
/// at the end is dropped.
pub open spec fn paired(flat: Seq<usize>) -> Seq<(usize, usize)> {
    Seq::new((flat.len() / 2) as nat, |i: int| (flat[2 * i], flat[2 * i + 1]))
}

/// The targets of row `y`, from left to right.
pub open spec fn row_marks(row: Seq<Entities>, y: int) -> Seq<(int, int)>
    decreases row.len(),
{
    if row.len() == 0 {
        Seq::empty()
    } else if row.last() == Entities::Target {
        row_marks(row.drop_last(), y).push((row.len() - 1, y))
    } else {
        row_marks(row.drop_last(), y)
    }
}

/// The targets of a grid, row by row from the top, each row from the left.
pub open spec fn marks(grid: Seq<Seq<Entities>>) -> Seq<(int, int)>
    decreases grid.len(),
{
    if grid.len() == 0 {
        Seq::empty()
    } else {
        marks(grid.drop_last()) + row_marks(grid.last(), grid.len() - 1)
    }
}

/// The board that a map text writes, or the first reason why it writes none.
/// The lines are judged in order: the player's line, the boxes' line, the
/// grid's cells, the grid's shape, and last the placement of the pieces.
pub open spec fn parse(src: Seq<char>) -> Result<Board, ParseError> {
    let ls = lines(src);
    if ls.len() < 2 {
        Err(ParseError::MissingLine)
    } else {
        match numbers(words(ls[0])) {
            None => Err(ParseError::InvalidNumber),
            Some(first) => if first.len() != 2 {
                Err(ParseError::WrongTokenCount)
            } else {
                match numbers(words(ls[1])) {
                    None => Err(ParseError::InvalidNumber),
                    Some(flat) => if flat.len() % 2 != 0 {
                        Err(ParseError::WrongTokenCount)
                    } else {
                        match grid_of(ls.skip(2)) {
                            None => Err(ParseError::InvalidCell),
                            Some(grid) => {
                                let board = Board {
                                    grid,
                                    player: (first[0] as int, first[1] as int),
                                    boxes: crate::model::points(paired(flat)),
                                    targets: marks(grid),
                                    actions: Seq::<Actions>::empty(),
                                };
                                if !board.rectangular() {
                                    Err(ParseError::RaggedRows)
                                } else if !board.pieces_placed() {
                                    Err(ParseError::OutOfPlace)
                                } else {
                                    Ok(board)
                                }
                            },
                        }
                    },
                }
            },
        }
    }
}

/// In one row, the marks are the columns that hold a target, each once.
pub proof fn row_marks_sound(row: Seq<Entities>, y: int)
    ensures
        row_marks(row, y).no_duplicates(),
        forall|p: (int, int)|
            row_marks(row, y).contains(p) <==> (p.1 == y && 0 <= p.0 < row.len() && row[p.0]
                == Entities::Target),
    decreases row.len(),
{
    if row.len() > 0 {
        let rest = row.drop_last();
        row_marks_sound(rest, y);
        let m = row_marks(rest, y);
        let last = (row.len() - 1, y);
        if row.last() == Entities::Target {
            assert(!m.contains(last));
            assert forall|p: (int, int)| m.push(last).contains(p) <==> (p.1 == y && 0 <= p.0
                < row.len() && row[p.0] == Entities::Target) by {
                if m.push(last).contains(p) {
                    let i = choose|i: int| 0 <= i < m.push(last).len() && m.push(last)[i] == p;
                    if i < m.len() {
                        assert(m.contains(m[i]));
                    }
                }
                if p.1 == y && 0 <= p.0 < row.len() && row[p.0] == Entities::Target {
                    if p.0 == row.len() - 1 {
                        assert(m.push(last)[m.len() as int] == p);
                    } else {
                        assert(rest[p.0] == row[p.0]);
                        assert(m.contains(p));
                        let i = choose|i: int| 0 <= i < m.len() && m[i] == p;
                        assert(m.push(last)[i] == p);
                    }
                }
            }
            assert forall|i: int, j: int|
                0 <= i < m.push(last).len() && 0 <= j < m.push(last).len() && i != j implies m.push(
                last,
            )[i] != m.push(last)[j] by {
                if i < m.len() {
                    assert(m.contains(m[i]));
                }
                if j < m.len() {
                    assert(m.contains(m[j]));
                }
            }
        } else {
            assert forall|p: (int, int)|
                m.contains(p) <==> (p.1 == y && 0 <= p.0 < row.len() && row[p.0]
                    == Entities::Target) by {
                if 0 <= p.0 < rest.len() {
                    assert(rest[p.0] == row[p.0]);
                }
            }
        }
    }
}

/// The marks of a grid are its target cells, each once.
pub proof fn marks_sound(grid: Seq<Seq<Entities>>)
    ensures
        marks(grid).no_duplicates(),
        forall|p: (int, int)|
            marks(grid).contains(p) <==> (0 <= p.1 < grid.len() && 0 <= p.0 < grid[p.1].len()
                && grid[p.1][p.0] == Entities::Target),
    decreases grid.len(),
{
    if grid.len() > 0 {
        let rest = grid.drop_last();
        let y = grid.len() - 1;
        marks_sound(rest);
        row_marks_sound(grid.last(), y);
        let a = marks(rest);
        let b = row_marks(grid.last(), y);
        assert forall|i: int, j: int| 0 <= i < a.len() && 0 <= j < b.len() implies a[i]
            != b[j] by {
            assert(a.contains(a[i]));
            assert(b.contains(b[j]));
        }
        vstd::seq_lib::lemma_no_dup_in_concat(a, b);
        assert forall|p: (int, int)|
            (a + b).contains(p) <==> (0 <= p.1 < grid.len() && 0 <= p.0 < grid[p.1].len()
                && grid[p.1][p.0] == Entities::Target) by {
            if (a + b).contains(p) {
                let i = choose|i: int| 0 <= i < (a + b).len() && (a + b)[i] == p;
                if i < a.len() {
                    assert(a.contains(a[i]));
                    assert(rest[p.1] == grid[p.1]);
                } else {
                    assert(b.contains(b[i - a.len()]));
                }
            }
            if 0 <= p.1 < grid.len() && 0 <= p.0 < grid[p.1].len() && grid[p.1][p.0]
                == Entities::Target {
                if p.1 == y {
                    assert(b.contains(p));
                    let j = choose|j: int| 0 <= j < b.len() && b[j] == p;
                    assert((a + b)[a.len() + j] == p);
                } else {
                    assert(rest[p.1] == grid[p.1]);
                    assert(a.contains(p));
                    let i = choose|i: int| 0 <= i < a.len() && a[i] == p;
                    assert((a + b)[i] == p);
                }
            }
        }
    }
}

/// Every board that a map text writes is a position that play can reach, with
/// an empty history.
pub proof fn parsed_board_is_valid(src: Seq<char>)
    requires
        parse(src) is Ok,
    ensures
        parse(src)->Ok_0.valid(),
        parse(src)->Ok_0.actions.len() == 0,
{
    let board = parse(src)->Ok_0;
    marks_sound(board.grid);
}

/// Lines are what line feeds separate: a text has at least one line, no line
/// holds a line feed, and the lines written one after another with a line feed
/// between each two are the text again.
pub proof fn lines_rejoin(s: Seq<char>)
    ensures
        lines(s).len() >= 1,
        forall|i: int, j: int|
            0 <= i < lines(s).len() && 0 <= j < lines(s)[i].len() ==> lines(s)[i][j] != '\n',
        joined(lines(s), seq!['\n']) == s,
    decreases s.len(),
{
    let sep = seq!['\n'];
    if s.len() == 0 {
        assert(joined(lines(s), sep) =~= s);
    } else {
        let before = lines(s.drop_last());
        lines_rejoin(s.drop_last());
        let c = s.last();
        if c == '\n' {
            let now = before.push(Seq::empty());
            assert(now.drop_last() =~= before);
            assert(joined(now, sep) =~= s);
        } else {
            let now = before.drop_last().push(before.last().push(c));
            assert(now.drop_last() =~= before.drop_last());
            if before.len() == 1 {
                assert(joined(now, sep) =~= s);
            } else {
                assert(joined(now, sep) =~= joined(before, sep).push(c));
                assert(joined(now, sep) =~= s);
            }
        }
    }
}

/// What reading a line from the left holds at any moment: words that are not
/// empty and hold no white space, and, in the words and the word under way
/// together, exactly the characters read that are no white space, in order.
pub proof fn scan_keeps_letters(s: Seq<char>)
    ensures
        forall|i: int| 0 <= i < scan(s).0.len() ==> (#[trigger] scan(s).0[i]).len() > 0,
        forall|i: int, j: int|
            0 <= i < scan(s).0.len() && 0 <= j < scan(s).0[i].len() ==> !is_space(scan(s).0[i][j]),
        forall|j: int| 0 <= j < scan(s).1.len() ==> !is_space(scan(s).1[j]),
        joined(scan(s).0, Seq::empty()) + scan(s).1 == s.filter(|c: char| !is_space(c)),
    decreases s.len(),
{
    reveal(Seq::filter);
    let none = Seq::<char>::empty();
    let keep = |c: char| !is_space(c);
    if s.len() == 0 {
        assert(joined(scan(s).0, none) + scan(s).1 =~= s.filter(keep));
    } else {
        scan_keeps_letters(s.drop_last());
        let (done, word) = scan(s.drop_last());
        let c = s.last();
        if !is_space(c) {
            assert(joined(done, none) + word.push(c) =~= (joined(done, none) + word).push(c));
        } else if word.len() > 0 {
            let now = done.push(word);
            assert(now.drop_last() =~= done);
            if done.len() == 0 {
                assert(joined(now, none) + none =~= joined(done, none) + word);
            } else {
                assert(joined(now, none) + none =~= joined(done, none) + word);
            }
        }
    }
}

/// Words are the runs between white space: no word is empty, no word holds
/// white space, and the words written one after another are the line without
/// its white space.
pub proof fn words_are_runs(s: Seq<char>)
    ensures
        forall|i: int| 0 <= i < words(s).len() ==> (#[trigger] words(s)[i]).len() > 0,
        forall|i: int, j: int|
            0 <= i < words(s).len() && 0 <= j < words(s)[i].len() ==> !is_space(words(s)[i][j]),
        joined(words(s), Seq::empty()) == s.filter(|c: char| !is_space(c)),
{
    scan_keeps_letters(s);
    let none = Seq::<char>::empty();
    let (done, word) = scan(s);
    if word.len() > 0 {
        let now = done.push(word);
        assert(now.drop_last() =~= done);
        assert(joined(now, none) =~= joined(done, none) + word);
    } else {
        assert(joined(done, none) + word =~= joined(done, none));
    }
}

} // verus!
