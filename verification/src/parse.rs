//! Reading a board from its map text.

use vstd::prelude::*;
use itertools::Itertools;
use crate::board::GameBoard;
use crate::grammar::{
    cell_of, decimal, grid_of, is_digit, is_space, lines, marks, number, numbers, paired, parse,
    parsed_board_is_valid, row_marks, row_of, scan, words, ParseError,
};
use crate::model::{points, rows, Board, Entities};

verus! {

/// A list of machine strings as a list of texts.
pub open spec fn texts(list: Seq<Vec<char>>) -> Seq<Seq<char>> {
    Seq::new(list.len(), |i: int| list[i]@)
}

/// The characters of `text`, in order.
pub fn chars_of(text: &str) -> (chars: Vec<char>)
    ensures
        chars@ == text@,
{
    let mut chars: Vec<char> = Vec::new();
    for c in it: text.chars()
        invariant
            chars@ == it.seq().take(it.index() as int),
            it.seq() == text@,
    {
        chars.push(c);
    }
    chars
}

/// Whether `c` is white space.
pub fn space(c: char) -> (yes: bool)
    ensures
        yes == is_space(c),
{
    let u: u32 = c as u32;
    (0x09 <= u && u <= 0x0D) || u == 0x20 || u == 0x85 || u == 0xA0 || u == 0x1680 || (0x2000 <= u
        && u <= 0x200A) || u == 0x2028 || u == 0x2029 || u == 0x202F || u == 0x205F || u == 0x3000
}

/// Cuts a text into its lines.
pub fn split_lines(chars: &Vec<char>) -> (list: Vec<Vec<char>>)
    ensures
        texts(list@) == lines(chars@),
{
    let mut list: Vec<Vec<char>> = Vec::new();
    let mut line: Vec<char> = Vec::new();
    let mut i: usize = 0;
    while i < chars.len()
        invariant
            i <= chars.len(),
            texts(list@).push(line@) == lines(chars@.take(i as int)),
        decreases chars.len() - i,
    {
        let c = chars[i];
        proof {
            let s = chars@.take(i + 1);
            assert(s.drop_last() =~= chars@.take(i as int));
            assert(s.last() == c);
        }
        let ghost before = texts(list@).push(line@);
        if c == '\n' {
            list.push(line);
            line = Vec::new();
            assert(texts(list@).push(line@) =~= before.push(Seq::empty()));
        } else {
            line.push(c);
            assert(texts(list@).push(line@) =~= before.drop_last().push(before.last().push(c)));
        }
        i += 1;
    }
    assert(chars@.take(i as int) =~= chars@);
    let ghost before = texts(list@).push(line@);
    list.push(line);
    assert(texts(list@) =~= before);
    list
}

/// Cuts a line into its words.
pub fn split_words(line: &Vec<char>) -> (list: Vec<Vec<char>>)
    ensures
        texts(list@) == words(line@),
{
    let mut list: Vec<Vec<char>> = Vec::new();
    let mut word: Vec<char> = Vec::new();
    let mut i: usize = 0;
    while i < line.len()
        invariant
            i <= line.len(),
            scan(line@.take(i as int)) == (texts(list@), word@),
        decreases line.len() - i,
    {
        let c = line[i];
        proof {
            let s = line@.take(i + 1);
            assert(s.drop_last() =~= line@.take(i as int));
            assert(s.last() == c);
        }
        let ghost done = texts(list@);
        let ghost open = word@;
        if !space(c) {
            word.push(c);
        } else if word.len() > 0 {
            list.push(word);
            word = Vec::new();
            assert(texts(list@) =~= done.push(open));
        }
        i += 1;
    }
    assert(line@.take(i as int) =~= line@);
    if word.len() > 0 {
        let ghost done = texts(list@);
        let ghost open = word@;
        list.push(word);
        assert(texts(list@) =~= done.push(open));
    }
    list
}

/// Longer runs of digits write larger numbers: no prefix of a run writes more
/// than the run.
proof fn decimal_grows(w: Seq<char>, n: int)
    requires
        0 <= n <= w.len(),
    ensures
        decimal(w.take(n)) <= decimal(w),
    decreases w.len(),
{
    if n == w.len() {
        assert(w.take(n) =~= w);
    } else {
        decimal_grows(w.drop_last(), n);
        assert(w.drop_last().take(n) =~= w.take(n));
    }
}

/// Reads a word as a number.
pub fn read_number(word: &Vec<char>) -> (value: Option<usize>)
    ensures
        value == number(word@),
{
    let start: usize = if word.len() > 0 && word[0] == '+' {
        1
    } else {
        0
    };
    let ghost digits = word@.skip(start as int);
    proof {
        if start == 1 {
            assert(word@.drop_first() =~= digits);
        } else {
            assert(word@ =~= digits);
        }
    }
    if word.len() == start {
        return None;
    }
    let mut total: usize = 0;
    let mut i: usize = start;
    while i < word.len()
        invariant
            start <= i <= word.len(),
            start < word.len(),
            start == (if word@.len() > 0 && word@[0] == '+' {
                1int
            } else {
                0int
            }),
            digits == word@.skip(start as int),
            forall|k: int| 0 <= k < i - start ==> is_digit(#[trigger] digits[k]),
            total == decimal(digits.take(i - start)),
        decreases word.len() - i,
    {
        let c = word[i];
        let u: u32 = c as u32;
        proof {
            assert(digits[i - start] == c);
            if start == 1 {
                assert(word@.drop_first() =~= digits);
            } else {
                assert(word@ =~= digits);
            }
            assert('0' as u32 == 48 && '9' as u32 == 57);
        }
        if u < 48 || u > 57 {
            assert(!is_digit(digits[i - start]));
            return None;
        }
        let digit: usize = (u - 48) as usize;
        proof {
            let s = digits.take(i - start + 1);
            assert(s.drop_last() =~= digits.take(i - start));
            assert(s.last() == c);
            assert(decimal(s) == total * 10 + digit);
            decimal_grows(digits, i - start + 1);
        }
        let tenfold = match total.checked_mul(10) {
            Some(t) => t,
            None => {
                return None;
            },
        };
        total = match tenfold.checked_add(digit) {
            Some(t) => t,
            None => {
                return None;
            },
        };
        i += 1;
    }
    proof {
        assert(digits.take(i - start) =~= digits);
        if start == 1 {
            assert(word@.drop_first() =~= digits);
        } else {
            assert(word@ =~= digits);
        }
    }
    Some(total)
}

/// Reads every word of a list as a number.
pub fn read_numbers(list: &Vec<Vec<char>>) -> (values: Option<Vec<usize>>)
    ensures
        match values {
            Some(v) => numbers(texts(list@)) == Some(v@),
            None => numbers(texts(list@)) is None,
        },
{
    let mut values: Vec<usize> = Vec::new();
    let mut i: usize = 0;
    while i < list.len()
        invariant
            i <= list.len(),
            values@.len() == i,
            forall|k: int| 0 <= k < i ==> number(#[trigger] texts(list@)[k]) == Some(values@[k]),
        decreases list.len() - i,
    {
        assert(texts(list@)[i as int] == list@[i as int]@);
        match read_number(&list[i]) {
            Some(v) => {
                values.push(v);
            },
            None => {
                return None;
            },
        }
        i += 1;
    }
    assert(numbers(texts(list@))->0 =~= values@);
    Some(values)
}

/// Reads a word as a cell.
pub fn read_cell(word: &Vec<char>) -> (cell: Option<Entities>)
    ensures
        cell == cell_of(word@),
{
    if word.len() != 1 {
        return None;
    }
    let c = word[0];
    if c == '0' {
        assert(word@ =~= seq!['0']);
        Some(Entities::Wall)
    } else if c == '1' {
        assert(word@ =~= seq!['1']);
        Some(Entities::Road)
    } else if c == '2' {
        assert(word@ =~= seq!['2']);
        Some(Entities::Target)
    } else {
        assert(seq!['0'][0] == '0' && seq!['1'][0] == '1' && seq!['2'][0] == '2');
        None
    }
}

/// Reads every word of a list as a cell.
pub fn read_row(list: &Vec<Vec<char>>) -> (row: Option<Vec<Entities>>)
    ensures
        match row {
            Some(r) => row_of(texts(list@)) == Some(r@),
            None => row_of(texts(list@)) is None,
        },
{
    let mut row: Vec<Entities> = Vec::new();
    let mut i: usize = 0;
    while i < list.len()
        invariant
            i <= list.len(),
            row@.len() == i,
            forall|k: int| 0 <= k < i ==> cell_of(#[trigger] texts(list@)[k]) == Some(row@[k]),
        decreases list.len() - i,
    {
        assert(texts(list@)[i as int] == list@[i as int]@);
        match read_cell(&list[i]) {
            Some(c) => {
                row.push(c);
            },
            None => {
                return None;
            },
        }
        i += 1;
    }
    assert(row_of(texts(list@))->0 =~= row@);
    Some(row)
}

/// Reads the lines after the first two as the rows of a grid.
pub fn read_grid(list: &Vec<Vec<char>>) -> (grid: Option<Vec<Vec<Entities>>>)
    requires
        list@.len() >= 2,
    ensures
        match grid {
            Some(g) => grid_of(texts(list@).skip(2)) == Some(rows(g@)),
            None => grid_of(texts(list@).skip(2)) is None,
        },
{
    let ghost below = texts(list@).skip(2);
    let mut grid: Vec<Vec<Entities>> = Vec::new();
    let mut i: usize = 2;
    while i < list.len()
        invariant
            2 <= i <= list.len(),
            below == texts(list@).skip(2),
            grid@.len() == i - 2,
            forall|k: int| 0 <= k < i - 2 ==> row_of(words(#[trigger] below[k])) == Some(grid@[k]@),
        decreases list.len() - i,
    {
        assert(below[i - 2] == list@[i as int]@);
        let cut = split_words(&list[i]);
        match read_row(&cut) {
            Some(r) => {
                grid.push(r);
            },
            None => {
                return None;
            },
        }
        i += 1;
    }
    assert(grid_of(below)->0 =~= rows(grid@));
    Some(grid)
}

/// Groups a flat list two by two with `itertools::Itertools::tuples`, which
/// hands out the items in order as pairs and drops an item left over at the
/// end.
#[verifier::external_body]
fn pairs(flat: Vec<usize>) -> (coords: Vec<(usize, usize)>)
    ensures
        coords@ == paired(flat@),
{
    flat.into_iter().tuples().collect()
}

/// Whether all rows of a grid have the width of the first.
pub fn same_widths(map: &Vec<Vec<Entities>>) -> (yes: bool)
    ensures
        yes == (forall|y: int|
            0 <= y < rows(map@).len() ==> (#[trigger] rows(map@)[y]).len() == rows(map@)[0].len()),
{
    let mut y: usize = 0;
    while y < map.len()
        invariant
            y <= map.len(),
            forall|k: int| 0 <= k < y ==> (#[trigger] rows(map@)[k]).len() == rows(map@)[0].len(),
        decreases map.len() - y,
    {
        if map[y].len() != map[0].len() {
            assert(rows(map@)[y as int].len() != rows(map@)[0].len());
            return false;
        }
        assert(rows(map@)[y as int].len() == rows(map@)[0].len());
        y += 1;
    }
    true
}

/// Lists the target cells of a grid, row by row from the top, each row from
/// the left.
pub fn find_targets(map: &Vec<Vec<Entities>>) -> (targets: Vec<(usize, usize)>)
    ensures
        points(targets@) == marks(rows(map@)),
{
    let ghost grid = rows(map@);
    let mut targets: Vec<(usize, usize)> = Vec::new();
    let mut y: usize = 0;
    while y < map.len()
        invariant
            y <= map.len(),
            grid == rows(map@),
            points(targets@) == marks(grid.take(y as int)),
        decreases map.len() - y,
    {
        let row = &map[y];
        let ghost above = marks(grid.take(y as int));
        assert(grid[y as int] == row@);
        let mut x: usize = 0;
        while x < row.len()
            invariant
                x <= row.len(),
                row@ == grid[y as int],
                points(targets@) == above + row_marks(row@.take(x as int), y as int),
            decreases row.len() - x,
        {
            proof {
                let s = row@.take(x + 1);
                assert(s.drop_last() =~= row@.take(x as int));
                assert(s.last() == row@[x as int]);
            }
            let ghost so_far = points(targets@);
            if matches!(row[x], Entities::Target) {
                targets.push((x, y));
                assert(points(targets@) =~= so_far.push((x as int, y as int)));
            }
            x += 1;
        }
        proof {
            assert(row@.take(x as int) =~= row@);
            let g = grid.take(y + 1);
            assert(g.drop_last() =~= grid.take(y as int));
            assert(g.last() == row@);
        }
        y += 1;
    }
    assert(grid.take(y as int) =~= grid);
    targets
}

impl GameBoard {
    /// Reads a board from its map text: the player's column and row on the
    /// first line, the boxes' columns and rows on the second, the rows of the
    /// grid on the lines that follow. Returns the board that the text writes,
    /// ready for play, or the first reason why the text writes none.
    pub fn from_src(source: &str) -> (loaded: Result<GameBoard, ParseError>)
        ensures
            match loaded {
                Ok(board) => parse(source@) == Ok::<Board, ParseError>(board@) && board@.valid(),
                Err(e) => parse(source@) == Err::<Board, ParseError>(e),
            },
    {
        let chars = chars_of(source);
        let list = split_lines(&chars);
        if list.len() < 2 {
            return Err(ParseError::MissingLine);
        }
        assert(texts(list@)[0] == list@[0]@ && texts(list@)[1] == list@[1]@);
        let first = match read_numbers(&split_words(&list[0])) {
            Some(first) => first,
            None => {
                return Err(ParseError::InvalidNumber);
            },
        };
        if first.len() != 2 {
            return Err(ParseError::WrongTokenCount);
        }
        let flat = match read_numbers(&split_words(&list[1])) {
            Some(flat) => flat,
            None => {
                return Err(ParseError::InvalidNumber);
            },
        };
        if flat.len() % 2 != 0 {
            return Err(ParseError::WrongTokenCount);
        }
        let map = match read_grid(&list) {
            Some(map) => map,
            None => {
                return Err(ParseError::InvalidCell);
            },
        };
        if !same_widths(&map) {
            return Err(ParseError::RaggedRows);
        }
        let targets = find_targets(&map);
        let boxes = pairs(flat);
        let board = GameBoard::assemble(map, (first[0], first[1]), boxes, targets);
        if !board.pieces_placed() {
            return Err(ParseError::OutOfPlace);
        }
        proof {
            parsed_board_is_valid(source@);
        }
        Ok(board)
    }
}

} // verus!
