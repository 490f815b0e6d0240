//! The mathematical model of a Sokoban position and of its transitions.
//!
//! Coordinates are pairs `(x, y)` of integers: `x` counts columns from the
//! left, `y` counts rows from the top. A coordinate outside the grid is a
//! perfectly good value of the model; it simply holds no cell.

use vstd::prelude::*;

verus! {

/// What a grid cell is made of.
#[derive(Debug, Clone, Copy, PartialEq, Eq, Structural)]
pub enum Entities {
    Wall,
    Road,
    Target,
}

/// The four directions in which the player can step.
#[derive(Debug, Clone, Copy, PartialEq, Eq, Structural)]
pub enum Directions {
    Left,
    Right,
    Up,
    Down,
}

/// One applied transition: a plain step, or a step that pushes a box.
#[derive(Debug, Clone, Copy, PartialEq, Eq, Structural)]
pub enum Actions {
    Move(Directions),
    Push(Directions),
}

/// The displacement of one step in direction `d`.
pub open spec fn delta(d: Directions) -> (int, int) {
    match d {
        Directions::Left => (-1, 0),
        Directions::Right => (1, 0),
        Directions::Up => (0, -1),
        Directions::Down => (0, 1),
    }
}

/// The coordinate one step from `p` in direction `d`.
pub open spec fn ahead(p: (int, int), d: Directions) -> (int, int) {
    (p.0 + delta(d).0, p.1 + delta(d).1)
}

/// The coordinate one step from `p` against direction `d`.
pub open spec fn behind(p: (int, int), d: Directions) -> (int, int) {
    (p.0 - delta(d).0, p.1 - delta(d).1)
}

/// The direction that exactly reverses `d`.
pub open spec fn opposite(d: Directions) -> Directions {
    match d {
        Directions::Left => Directions::Right,
        Directions::Right => Directions::Left,
        Directions::Up => Directions::Down,
        Directions::Down => Directions::Up,
    }
}

/// The direction in which an action moved the player.
pub open spec fn heading(a: Actions) -> Directions {
    match a {
        Actions::Move(d) => d,
        Actions::Push(d) => d,
    }
}

/// A machine coordinate as a coordinate of the model.
pub open spec fn point(p: (usize, usize)) -> (int, int) {
    (p.0 as int, p.1 as int)
}

/// A sequence of machine coordinates as coordinates of the model.
pub open spec fn points(s: Seq<(usize, usize)>) -> Seq<(int, int)> {
    Seq::new(s.len(), |i: int| point(s[i]))
}

/// The rows of a machine grid as rows of the model.
pub open spec fn rows(map: Seq<Vec<Entities>>) -> Seq<Seq<Entities>> {
    Seq::new(map.len(), |y: int| map[y]@)
}

/// A Sokoban position: the fixed grid and targets, the player, the boxes, and
/// the actions that led here.
pub struct Board {
    pub grid: Seq<Seq<Entities>>,
    pub player: (int, int),
    pub boxes: Seq<(int, int)>,
    pub targets: Seq<(int, int)>,
    pub actions: Seq<Actions>,
}

impl Board {
    /// The cell at `p`, if `p` lies inside the grid.
    pub open spec fn cell(self, p: (int, int)) -> Option<Entities> {
        if 0 <= p.1 < self.grid.len() && 0 <= p.0 < self.grid[p.1].len() {
            Some(self.grid[p.1][p.0])
        } else {
            None
        }
    }

    /// `p` lies inside the grid and is not a wall.
    pub open spec fn passable(self, p: (int, int)) -> bool {
        self.cell(p) is Some && self.cell(p) != Some(Entities::Wall)
    }

    /// Some box stands on `p`.
    pub open spec fn has_box(self, p: (int, int)) -> bool {
        self.boxes.contains(p)
    }

    /// `p` can take a box or the player: passable and not occupied by a box.
    pub open spec fn free(self, p: (int, int)) -> bool {
        self.passable(p) && !self.has_box(p)
    }

    /// The action that a step in direction `d` performs, or `None` where the
    /// step is blocked: by the grid's edge, by a wall, or by a box that cannot
    /// itself move one cell further.
    pub open spec fn attempt(self, d: Directions) -> Option<Actions> {
        let to = ahead(self.player, d);
        if !self.passable(to) {
            None
        } else if !self.has_box(to) {
            Some(Actions::Move(d))
        } else if self.free(ahead(to, d)) {
            Some(Actions::Push(d))
        } else {
            None
        }
    }

    /// The position after action `a`: the player one step ahead, a pushed box
    /// one step ahead of that, keeping its place in the box list, and `a`
    /// appended to the history.
    pub open spec fn apply(self, a: Actions) -> Board {
        let to = ahead(self.player, heading(a));
        Board {
            player: to,
            boxes: match a {
                Actions::Move(_) => self.boxes,
                Actions::Push(d) => self.boxes.update(self.boxes.index_of(to), ahead(to, d)),
            },
            actions: self.actions.push(a),
            ..self
        }
    }

    /// The position after trying to step in direction `d`: unchanged where the
    /// step is blocked.
    pub open spec fn step(self, d: Directions) -> Board {
        match self.attempt(d) {
            Some(a) => self.apply(a),
            None => self,
        }
    }

    /// The position with its latest action taken back: the player one step
    /// behind, a pushed box back on the cell the player leaves, the history one
    /// entry shorter. A position without history is its own predecessor.
    pub open spec fn rewind(self) -> Board {
        if self.actions.len() == 0 {
            self
        } else {
            let a = self.actions.last();
            Board {
                player: behind(self.player, heading(a)),
                boxes: match a {
                    Actions::Move(_) => self.boxes,
                    Actions::Push(d) => self.boxes.update(
                        self.boxes.index_of(ahead(self.player, d)),
                        self.player,
                    ),
                },
                actions: self.actions.drop_last(),
                ..self
            }
        }
    }

    /// Every box stands on a target.
    pub open spec fn won(self) -> bool {
        forall|i: int| 0 <= i < self.boxes.len() ==> self.targets.contains(#[trigger] self.boxes[i])
    }

    /// All rows of the grid have the same width.
    pub open spec fn rectangular(self) -> bool {
        forall|y: int| 0 <= y < self.grid.len() ==> (#[trigger] self.grid[y]).len() == self.grid[0].len()
    }

    /// The target list names the grid's target cells, each once.
    pub open spec fn targets_marked(self) -> bool {
        &&& self.targets.no_duplicates()
        &&& forall|p: (int, int)| self.targets.contains(p) <==> self.cell(p) == Some(Entities::Target)
    }

    /// The player and every box stand on a cell that is no wall, and no two
    /// boxes stand on one cell.
    pub open spec fn pieces_placed(self) -> bool {
        &&& self.passable(self.player)
        &&& self.boxes.no_duplicates()
        &&& forall|i: int| 0 <= i < self.boxes.len() ==> self.passable(#[trigger] self.boxes[i])
    }

    /// The rules of placement: a rectangular grid with its targets marked, and
    /// the pieces placed on it.
    pub open spec fn placed(self) -> bool {
        &&& self.rectangular()
        &&& self.targets_marked()
        &&& self.pieces_placed()
    }

    /// The history is genuine: taking back the latest action gives a placed
    /// position from which that very action leads here, and so on down to the
    /// start.
    pub open spec fn retraceable(self) -> bool
        decreases self.actions.len(),
    {
        self.actions.len() > 0 ==> {
            let before = self.rewind();
            &&& before.placed()
            &&& before.attempt(heading(self.actions.last())) == Some(self.actions.last())
            &&& before.apply(self.actions.last()) == self
            &&& before.retraceable()
        }
    }

    /// A position that play can reach: placed by the rules, with a genuine
    /// history.
    pub open spec fn valid(self) -> bool {
        self.placed() && self.retraceable()
    }
}

} // verus!
