//! Boards and histories as text.

use vstd::prelude::*;
use vstd::string::StringExecFns;
use itertools::Itertools;
use crate::board::GameBoard;
use crate::model::{Actions, Board, Directions, Entities};

verus! {

/// The two-letter code of an action: `M` for a plain step or `P` for a push,
/// and the first letter of the direction.
pub open spec fn code(a: Actions) -> Seq<char> {
    match a {
        Actions::Move(Directions::Left) => seq!['M', 'L'],
        Actions::Move(Directions::Right) => seq!['M', 'R'],
        Actions::Move(Directions::Up) => seq!['M', 'U'],
        Actions::Move(Directions::Down) => seq!['M', 'D'],
        Actions::Push(Directions::Left) => seq!['P', 'L'],
        Actions::Push(Directions::Right) => seq!['P', 'R'],
        Actions::Push(Directions::Up) => seq!['P', 'U'],
        Actions::Push(Directions::Down) => seq!['P', 'D'],
    }
}

/// The parts of a list written one after another with `sep` between each two.
pub open spec fn joined(parts: Seq<Seq<char>>, sep: Seq<char>) -> Seq<char>
    decreases parts.len(),
{
    if parts.len() == 0 {
        Seq::empty()
    } else if parts.len() == 1 {
        parts[0]
    } else {
        joined(parts.drop_last(), sep) + sep + parts.last()
    }
}

/// The texts that a list of strings holds.
pub open spec fn strings(list: Seq<String>) -> Seq<Seq<char>> {
    Seq::new(list.len(), |i: int| list[i]@)
}

/// A history as text: the codes of its actions, oldest first, with one space
/// between each two.
pub open spec fn history_text(actions: Seq<Actions>) -> Seq<char> {
    joined(Seq::new(actions.len(), |i: int| code(actions[i])), seq![' '])
}

/// How the cell at `p` is drawn: a wall as a black square; else the player as
/// a cat where it stands; else a box as a red disc on a road and as a button
/// on a target; else a road as two blanks and a target as a pair of brackets.
pub open spec fn glyph(s: Board, p: (int, int)) -> Seq<char> {
    match s.cell(p) {
        Some(Entities::Wall) => seq!['\u{2b1b}'],
        Some(Entities::Road) => if s.player == p {
            seq!['\u{1f431}']
        } else if s.has_box(p) {
            seq!['\u{1f534}']
        } else {
            seq![' ', ' ']
        },
        Some(Entities::Target) => if s.player == p {
            seq!['\u{1f431}']
        } else if s.has_box(p) {
            seq!['\u{1f518}']
        } else {
            seq!['[', ']']
        },
        None => Seq::empty(),
    }
}

/// The first `n` cells of row `y`, drawn from left to right.
pub open spec fn row_text(s: Board, y: int, n: int) -> Seq<char>
    decreases n,
{
    if n <= 0 {
        Seq::empty()
    } else {
        row_text(s, y, n - 1) + glyph(s, (n - 1, y))
    }
}

/// A board as text: its rows from the top, each drawn in full, with a line
/// feed and a carriage return between each two.
pub open spec fn picture(s: Board) -> Seq<char> {
    joined(
        Seq::new(s.grid.len(), |y: int| row_text(s, y, s.grid[y].len() as int)),
        seq!['\n', '\r'],
    )
}

impl Actions {
    /// The two-letter code of the action.
    pub fn to_string(&self) -> (text: String)
        ensures
            text@ == code(*self),
    {
        let word = match self {
            Actions::Move(Directions::Left) => "ML",
            Actions::Move(Directions::Right) => "MR",
            Actions::Move(Directions::Up) => "MU",
            Actions::Move(Directions::Down) => "MD",
            Actions::Push(Directions::Left) => "PL",
            Actions::Push(Directions::Right) => "PR",
            Actions::Push(Directions::Up) => "PU",
            Actions::Push(Directions::Down) => "PD",
        };
        proof {
            reveal_strlit("ML");
            reveal_strlit("MR");
            reveal_strlit("MU");
            reveal_strlit("MD");
            reveal_strlit("PL");
            reveal_strlit("PR");
            reveal_strlit("PU");
            reveal_strlit("PD");
            assert(word@ =~= code(*self));
        }
        String::from_str(word)
    }
}

/// Writes the strings of a list one after another, with `sep` between each
/// two, by `itertools::Itertools::join`: the first string, and before every
/// further one the separator.
#[verifier::external_body]
fn join(list: &Vec<String>, sep: &str) -> (text: String)
    ensures
        text@ == joined(strings(list@), sep@),
{
    list.iter().join(sep)
}

impl GameBoard {
    /// The history as text: the codes of the actions, oldest first, separated
    /// by single spaces.
    pub fn history(&self) -> (text: String)
        ensures
            text@ == history_text(self@.actions),
    {
        let actions = self.actions();
        let mut codes: Vec<String> = Vec::new();
        let mut i: usize = 0;
        while i < actions.len()
            invariant
                i <= actions.len(),
                codes@.len() == i,
                forall|k: int| 0 <= k < i ==> (#[trigger] codes@[k])@ == code(actions@[k]),
            decreases actions.len() - i,
        {
            codes.push(actions[i].to_string());
            i += 1;
        }
        proof {
            reveal_strlit(" ");
            assert(" "@ =~= seq![' ']);
            assert(strings(codes@) =~= Seq::new(actions@.len(), |i: int| code(actions@[i])));
        }
        join(&codes, " ")
    }

    /// How the cell at column `x`, row `y` is drawn.
    fn glyph_at(&self, x: usize, y: usize) -> (text: &'static str)
        ensures
            text@ == glyph(self@, (x as int, y as int)),
    {
        proof {
            reveal_strlit("\u{2b1b}");
            reveal_strlit("\u{1f431}");
            reveal_strlit("\u{1f534}");
            reveal_strlit("\u{1f518}");
            reveal_strlit("  ");
            reveal_strlit("[]");
            reveal_strlit("");
            assert("\u{2b1b}"@ =~= seq!['\u{2b1b}']);
            assert("\u{1f431}"@ =~= seq!['\u{1f431}']);
            assert("\u{1f534}"@ =~= seq!['\u{1f534}']);
            assert("\u{1f518}"@ =~= seq!['\u{1f518}']);
            assert("  "@ =~= seq![' ', ' ']);
            assert("[]"@ =~= seq!['[', ']']);
            assert(""@ =~= Seq::<char>::empty());
        }
        let here = self.player();
        let player_here = here.0 == x && here.1 == y;
        match self.entity(x, y) {
            None => "",
            Some(Entities::Wall) => "\u{2b1b}",
            Some(Entities::Road) => {
                if player_here {
                    "\u{1f431}"
                } else if self.box_index(x, y).is_some() {
                    "\u{1f534}"
                } else {
                    "  "
                }
            },
            Some(Entities::Target) => {
                if player_here {
                    "\u{1f431}"
                } else if self.box_index(x, y).is_some() {
                    "\u{1f518}"
                } else {
                    "[]"
                }
            },
        }
    }

    /// The board as text, row by row from the top, with a line feed and a
    /// carriage return between each two rows.
    pub fn stringify(&self) -> (text: String)
        ensures
            text@ == picture(self@),
    {
        let ghost s = self@;
        let ghost all = Seq::new(s.grid.len(), |y: int| row_text(s, y, s.grid[y].len() as int));
        let ghost sep = seq!['\n', '\r'];
        let mut text = String::new();
        let height = self.height();
        let mut y: usize = 0;
        while y < height
            invariant
                y <= height,
                height == s.grid.len(),
                s == self@,
                sep == seq!['\n', '\r'],
                all == Seq::new(s.grid.len(), |y: int| row_text(s, y, s.grid[y].len() as int)),
                text@ == joined(all.take(y as int), sep),
            decreases height - y,
        {
            if y > 0 {
                proof {
                    reveal_strlit("\n\r");
                    assert("\n\r"@ =~= sep);
                }
                text.append("\n\r");
            }
            let ghost base = text@;
            let width = self.row_width(y);
            let mut x: usize = 0;
            while x < width
                invariant
                    x <= width,
                    s == self@,
                    text@ == base + row_text(s, y as int, x as int),
                decreases width - x,
            {
                let g = self.glyph_at(x, y);
                text.append(g);
                assert(text@ =~= base + row_text(s, y as int, x as int + 1));
                x += 1;
            }
            proof {
                assert(base + row_text(s, y as int, 0) =~= base);
                let part = all.take(y + 1);
                assert(part.drop_last() =~= all.take(y as int));
                assert(part.last() == row_text(s, y as int, width as int));
                if y == 0 {
                    assert(part[0] == part.last());
                    assert(text@ =~= joined(part, sep));
                } else {
                    assert(text@ =~= joined(part, sep));
                }
            }
            y += 1;
        }
        assert(all.take(y as int) =~= all);
        text
    }
}

} // verus!
