//! The executable board and its transitions.

use vstd::prelude::*;
use vstd::std_specs::cmp::PartialEqSpecImpl;
use crate::laws::{move_keeps_valid, undo_keeps_valid, won_by_cells};
use crate::model::{
    ahead, behind, heading, opposite, point, points, rows, Actions, Board, Directions, Entities,
};

verus! {

/// The four directions, in the order in which the solvers try them.
pub const DIRECTIONS: [Directions; 4] = [
    Directions::Left,
    Directions::Right,
    Directions::Up,
    Directions::Down,
];

/// The direction that exactly reverses `d`.
pub fn reverse(d: Directions) -> (r: Directions)
    ensures
        r == opposite(d),
{
    match d {
        Directions::Left => Directions::Right,
        Directions::Right => Directions::Left,
        Directions::Up => Directions::Down,
        Directions::Down => Directions::Up,
    }
}

/// The direction in which an action moved the player.
pub fn direction_of(a: Actions) -> (d: Directions)
    ensures
        d == heading(a),
{
    match a {
        Actions::Move(d) => d,
        Actions::Push(d) => d,
    }
}

/// The coordinate one step from `p` in direction `d`, where the machine can
/// hold it: `None` stands for a coordinate left of column 0, above row 0, or
/// beyond the largest `usize`.
pub fn neighbour(p: (usize, usize), d: Directions) -> (q: Option<(usize, usize)>)
    ensures
        match q {
            Some(q) => point(q) == ahead(point(p), d),
            None => {
                let a = ahead(point(p), d);
                a.0 < 0 || a.1 < 0 || a.0 > usize::MAX || a.1 > usize::MAX
            },
        },
{
    match d {
        Directions::Left => match p.0.checked_sub(1) {
            Some(x) => Some((x, p.1)),
            None => None,
        },
        Directions::Right => match p.0.checked_add(1) {
            Some(x) => Some((x, p.1)),
            None => None,
        },
        Directions::Up => match p.1.checked_sub(1) {
            Some(y) => Some((p.0, y)),
            None => None,
        },
        Directions::Down => match p.1.checked_add(1) {
            Some(y) => Some((p.0, y)),
            None => None,
        },
    }
}

/// A Sokoban board: the grid, the player, the boxes, the targets and the
/// history of actions. Its view is the position it holds.
#[derive(Debug)]
pub struct GameBoard {
    map: Vec<Vec<Entities>>,
    player: (usize, usize),
    targets: Vec<(usize, usize)>,
    boxes: Vec<(usize, usize)>,
    actions: Vec<Actions>,
}

impl View for GameBoard {
    type V = Board;

    closed spec fn view(&self) -> Board {
        Board {
            grid: rows(self.map@),
            player: point(self.player),
            boxes: points(self.boxes@),
            targets: points(self.targets@),
            actions: self.actions@,
        }
    }
}

/// A copy of a list of coordinates.
fn copy_of(list: &Vec<(usize, usize)>) -> (copy: Vec<(usize, usize)>)
    ensures
        copy@ == list@,
{
    let mut copy: Vec<(usize, usize)> = Vec::new();
    let mut i: usize = 0;
    while i < list.len()
        invariant
            i <= list.len(),
            copy@ == list@.take(i as int),
        decreases list.len() - i,
    {
        copy.push(list[i]);
        assert(copy@ =~= list@.take(i + 1));
        i += 1;
    }
    assert(list@.take(i as int) =~= list@);
    copy
}

impl Clone for GameBoard {
    /// An independent copy that holds the same position.
    fn clone(&self) -> (copy: Self)
        ensures
            copy@ == self@,
    {
        let mut map: Vec<Vec<Entities>> = Vec::new();
        let mut y: usize = 0;
        while y < self.map.len()
            invariant
                y <= self.map.len(),
                map@.len() == y,
                forall|k: int| 0 <= k < y ==> (#[trigger] map@[k])@ == self.map@[k]@,
            decreases self.map.len() - y,
        {
            let row = self.map[y].clone();
            assert(row@ =~= self.map@[y as int]@);
            map.push(row);
            y += 1;
        }
        let targets = copy_of(&self.targets);
        let boxes = copy_of(&self.boxes);
        let actions = self.actions.clone();
        let copy = GameBoard { map, player: self.player, targets, boxes, actions };
        proof {
            assert(rows(copy.map@) =~= rows(self.map@));
            assert(copy.targets@ =~= self.targets@);
            assert(copy.boxes@ =~= self.boxes@);
            assert(copy.actions@ =~= self.actions@);
        }
        copy
    }
}

/// Whether two lists hold the same coordinates in the same order.
fn same_points(a: &Vec<(usize, usize)>, b: &Vec<(usize, usize)>) -> (same: bool)
    ensures
        same == (points(a@) == points(b@)),
{
    if a.len() != b.len() {
        assert(points(a@).len() != points(b@).len());
        return false;
    }
    let mut i: usize = 0;
    while i < a.len()
        invariant
            i <= a.len(),
            a.len() == b.len(),
            forall|k: int| 0 <= k < i ==> a@[k] == b@[k],
        decreases a.len() - i,
    {
        if a[i].0 != b[i].0 || a[i].1 != b[i].1 {
            assert(points(a@)[i as int] != points(b@)[i as int]);
            return false;
        }
        i += 1;
    }
    assert(points(a@) =~= points(b@));
    true
}

/// Whether two rows hold the same cells in the same order.
fn same_row(a: &Vec<Entities>, b: &Vec<Entities>) -> (same: bool)
    ensures
        same == (a@ == b@),
{
    if a.len() != b.len() {
        return false;
    }
    let mut i: usize = 0;
    while i < a.len()
        invariant
            i <= a.len(),
            a.len() == b.len(),
            forall|k: int| 0 <= k < i ==> a@[k] == b@[k],
        decreases a.len() - i,
    {
        if a[i] != b[i] {
            return false;
        }
        i += 1;
    }
    assert(a@ =~= b@);
    true
}

/// Whether two grids hold the same rows in the same order.
fn same_grid(a: &Vec<Vec<Entities>>, b: &Vec<Vec<Entities>>) -> (same: bool)
    ensures
        same == (rows(a@) == rows(b@)),
{
    if a.len() != b.len() {
        assert(rows(a@).len() != rows(b@).len());
        return false;
    }
    let mut y: usize = 0;
    while y < a.len()
        invariant
            y <= a.len(),
            a.len() == b.len(),
            forall|k: int| 0 <= k < y ==> a@[k]@ == b@[k]@,
        decreases a.len() - y,
    {
        if !same_row(&a[y], &b[y]) {
            assert(rows(a@)[y as int] != rows(b@)[y as int]);
            return false;
        }
        y += 1;
    }
    assert(rows(a@) =~= rows(b@));
    true
}

/// Whether two histories hold the same actions in the same order.
fn same_actions(a: &Vec<Actions>, b: &Vec<Actions>) -> (same: bool)
    ensures
        same == (a@ == b@),
{
    if a.len() != b.len() {
        return false;
    }
    let mut i: usize = 0;
    while i < a.len()
        invariant
            i <= a.len(),
            a.len() == b.len(),
            forall|k: int| 0 <= k < i ==> a@[k] == b@[k],
        decreases a.len() - i,
    {
        if a[i] != b[i] {
            return false;
        }
        i += 1;
    }
    assert(a@ =~= b@);
    true
}

impl PartialEq for GameBoard {
    /// Two boards are equal when they hold the same position: grid, player,
    /// boxes, targets and history.
    fn eq(&self, other: &Self) -> (same: bool) {
        same_grid(&self.map, &other.map) && self.player.0 == other.player.0 && self.player.1
            == other.player.1 && same_points(&self.boxes, &other.boxes) && same_points(
            &self.targets,
            &other.targets,
        ) && same_actions(&self.actions, &other.actions)
    }
}

impl Eq for GameBoard {

}

impl PartialEqSpecImpl for GameBoard {
    open spec fn obeys_eq_spec() -> bool {
        true
    }

    open spec fn eq_spec(&self, other: &Self) -> bool {
        self@ == other@
    }
}

impl GameBoard {
    /// Every cell of the grid has machine coordinates.
    proof fn cells_in_reach(&self)
        ensures
            forall|p: (int, int)| #[trigger]
                self@.cell(p) is Some ==> 0 <= p.0 < usize::MAX && 0 <= p.1 < usize::MAX,
    {
        assert forall|p: (int, int)| #[trigger] self@.cell(p) is Some implies 0 <= p.0 < usize::MAX
            && 0 <= p.1 < usize::MAX by {
            assert(self@.grid[p.1] == self.map@[p.1]@);
            assert(self.map@.len() == self.map.len());
            assert(self.map@[p.1]@.len() == self.map@[p.1].len());
        }
    }

    /// Puts a board without history together from its parts.
    pub(crate) fn assemble(
        map: Vec<Vec<Entities>>,
        player: (usize, usize),
        boxes: Vec<(usize, usize)>,
        targets: Vec<(usize, usize)>,
    ) -> (board: GameBoard)
        ensures
            board@.grid == rows(map@),
            board@.player == point(player),
            board@.boxes == points(boxes@),
            board@.targets == points(targets@),
            board@.actions == Seq::<Actions>::empty(),
    {
        GameBoard { map, player, targets, boxes, actions: Vec::new() }
    }

    /// The number of columns, read off the first row.
    pub fn width(&self) -> (w: usize)
        requires
            self@.grid.len() > 0,
        ensures
            w == self@.grid[0].len(),
    {
        self.map[0].len()
    }

    /// The number of rows.
    pub fn height(&self) -> (h: usize)
        ensures
            h == self@.grid.len(),
    {
        self.map.len()
    }

    /// The number of columns of row `y`.
    pub fn row_width(&self, y: usize) -> (w: usize)
        requires
            y < self@.grid.len(),
        ensures
            w == self@.grid[y as int].len(),
    {
        self.map[y].len()
    }

    /// Where the player stands.
    pub fn player(&self) -> (p: (usize, usize))
        ensures
            point(p) == self@.player,
    {
        self.player
    }

    /// The boxes, in their fixed order.
    pub fn boxes(&self) -> (list: &Vec<(usize, usize)>)
        ensures
            points(list@) == self@.boxes,
    {
        &self.boxes
    }

    /// The targets, in their fixed order.
    pub fn targets(&self) -> (list: &Vec<(usize, usize)>)
        ensures
            points(list@) == self@.targets,
    {
        &self.targets
    }

    /// The actions applied so far, oldest first.
    pub fn actions(&self) -> (list: &Vec<Actions>)
        ensures
            list@ == self@.actions,
    {
        &self.actions
    }

    /// The latest action, if there is any.
    pub fn last_action(&self) -> (last: Option<Actions>)
        ensures
            last == (if self@.actions.len() > 0 {
                Some(self@.actions.last())
            } else {
                None
            }),
    {
        if self.actions.len() > 0 {
            Some(self.actions[self.actions.len() - 1])
        } else {
            None
        }
    }

    /// The cell at column `x`, row `y`, if the grid has one there.
    pub fn entity(&self, x: usize, y: usize) -> (e: Option<Entities>)
        ensures
            e == self@.cell((x as int, y as int)),
    {
        if y < self.map.len() {
            let row = &self.map[y];
            if x < row.len() {
                return Some(row[x]);
            }
        }
        None
    }

    /// The place in the box list of the first box on column `x`, row `y`.
    pub fn box_index(&self, x: usize, y: usize) -> (found: Option<usize>)
        ensures
            match found {
                Some(i) => {
                    &&& i < self@.boxes.len()
                    &&& self@.boxes[i as int] == (x as int, y as int)
                    &&& forall|j: int| 0 <= j < i ==> self@.boxes[j] != (x as int, y as int)
                },
                None => !self@.has_box((x as int, y as int)),
            },
    {
        let mut i: usize = 0;
        while i < self.boxes.len()
            invariant
                i <= self.boxes.len(),
                forall|j: int| 0 <= j < i ==> point(#[trigger] self.boxes@[j]) != (x as int, y as int),
            decreases self.boxes.len() - i,
        {
            let b = self.boxes[i];
            if b.0 == x && b.1 == y {
                return Some(i);
            }
            i += 1;
        }
        None
    }

    /// Whether column `x`, row `y` can take a box or the player: a cell of the
    /// grid that is no wall and holds no box.
    pub fn is_free(&self, x: usize, y: usize) -> (yes: bool)
        ensures
            yes == self@.free((x as int, y as int)),
    {
        match self.entity(x, y) {
            None => false,
            Some(Entities::Wall) => false,
            Some(_) => self.box_index(x, y).is_none(),
        }
    }

    /// Whether the pieces stand by the rules: the player and every box on a
    /// cell of the grid that is no wall, and no two boxes on one cell.
    pub fn pieces_placed(&self) -> (ok: bool)
        ensures
            ok == self@.pieces_placed(),
    {
        match self.entity(self.player.0, self.player.1) {
            None => {
                return false;
            },
            Some(Entities::Wall) => {
                return false;
            },
            Some(_) => {},
        }
        let mut i: usize = 0;
        while i < self.boxes.len()
            invariant
                i <= self.boxes.len(),
                self@.passable(self@.player),
                forall|j: int| 0 <= j < i ==> self@.passable(#[trigger] self@.boxes[j]),
                forall|j: int, k: int| 0 <= j < k < i ==> self@.boxes[j] != self@.boxes[k],
            decreases self.boxes.len() - i,
        {
            let b = self.boxes[i];
            assert(self@.boxes[i as int] == point(b));
            match self.entity(b.0, b.1) {
                None => {
                    return false;
                },
                Some(Entities::Wall) => {
                    return false;
                },
                Some(_) => {},
            }
            match self.box_index(b.0, b.1) {
                Some(first) => {
                    if first != i {
                        assert(self@.boxes[first as int] == self@.boxes[i as int]);
                        return false;
                    }
                },
                None => {
                    assert(self@.boxes.contains(self@.boxes[i as int]));
                },
            }
            i += 1;
        }
        true
    }

    /// Puts the player on column `x`, row `y`.
    fn set_player_position(&mut self, x: usize, y: usize)
        ensures
            final(self)@ == (Board { player: (x as int, y as int), ..old(self)@ }),
    {
        self.player = (x, y);
    }

    /// Moves the box that stands on `src` to `dst`; it keeps its place in the
    /// box list.
    fn move_box(&mut self, src: (usize, usize), dst: (usize, usize))
        requires
            old(self)@.has_box(point(src)),
            old(self)@.boxes.no_duplicates(),
        ensures
            final(self)@ == (Board {
                boxes: old(self)@.boxes.update(old(self)@.boxes.index_of(point(src)), point(dst)),
                ..old(self)@
            }),
    {
        let found = self.box_index(src.0, src.1);
        let pos = found.unwrap();
        self.boxes.set(pos, dst);
        proof {
            let before = old(self)@.boxes;
            let k = before.index_of(point(src));
            assert(before.contains(point(src)));
            assert(0 <= k < before.len() && before[k] == point(src));
            assert(k == pos);
            assert(self@.boxes =~= before.update(k, point(dst)));
        }
    }

    /// Steps or pushes in `direction` where the rules allow it, without
    /// recording the action.
    fn _move(&mut self, direction: &Directions) -> (done: Option<Actions>)
        requires
            old(self)@.placed(),
        ensures
            done == old(self)@.attempt(*direction),
            final(self)@ == match done {
                Some(a) => (Board { actions: old(self)@.actions, ..old(self)@.apply(a) }),
                None => old(self)@,
            },
    {
        let d = *direction;
        proof {
            self.cells_in_reach();
        }
        let to = match neighbour(self.player, d) {
            Some(to) => to,
            None => {
                return None;
            },
        };
        match self.entity(to.0, to.1) {
            None => {
                return None;
            },
            Some(Entities::Wall) => {
                return None;
            },
            Some(_) => {},
        }
        if self.box_index(to.0, to.1).is_none() {
            self.set_player_position(to.0, to.1);
            return Some(Actions::Move(d));
        }
        let far = match neighbour(to, d) {
            Some(far) => far,
            None => {
                return None;
            },
        };
        if !self.is_free(far.0, far.1) {
            return None;
        }
        self.set_player_position(to.0, to.1);
        self.move_box(to, far);
        Some(Actions::Push(d))
    }

    /// Whether every box stands on a target.
    pub fn is_win(&self) -> (won: bool)
        requires
            self@.placed(),
        ensures
            won == self@.won(),
    {
        proof {
            won_by_cells(self@);
        }
        let mut i: usize = 0;
        while i < self.boxes.len()
            invariant
                i <= self.boxes.len(),
                self@.won() <==> forall|j: int|
                    0 <= j < self@.boxes.len() ==> self@.cell(#[trigger] self@.boxes[j]) == Some(
                        Entities::Target,
                    ),
                forall|j: int|
                    0 <= j < i ==> self@.cell(#[trigger] self@.boxes[j]) == Some(Entities::Target),
            decreases self.boxes.len() - i,
        {
            let b = self.boxes[i];
            match self.entity(b.0, b.1) {
                Some(Entities::Target) => {},
                _ => {
                    assert(self@.boxes[i as int] == point(b));
                    assert(self@.cell(self@.boxes[i as int]) != Some(Entities::Target));
                    return false;
                },
            }
            assert(self@.boxes[i as int] == point(b));
            i += 1;
        }
        true
    }

    /// Tries to step the player one cell in `direction`, pushing a box that
    /// stands in the way if the cell behind it is free. Returns the action
    /// performed and records it in the history, or returns `None` and leaves
    /// the board untouched where the step is blocked.
    pub fn move_(&mut self, direction: &Directions) -> (done: Option<Actions>)
        requires
            old(self)@.valid(),
        ensures
            done == old(self)@.attempt(*direction),
            final(self)@ == old(self)@.step(*direction),
            final(self)@.valid(),
    {
        proof {
            move_keeps_valid(self@, *direction);
        }
        let result = self._move(direction);
        if let Some(res) = result {
            self.actions.push(res);
        }
        result
    }

    /// Takes back the latest action: the player steps back, and a box that the
    /// action pushed returns to the cell the player leaves. Does nothing on a
    /// board without history.
    pub fn undo(&mut self)
        requires
            old(self)@.valid(),
        ensures
            final(self)@ == old(self)@.rewind(),
            final(self)@.valid(),
    {
        proof {
            undo_keeps_valid(self@);
            self.cells_in_reach();
        }
        let ghost start = self@;
        if let Some(act) = self.actions.pop() {
            let d = direction_of(act);
            let here = self.player;
            proof {
                assert(act == start.actions.last());
                assert(self@.actions == start.actions.drop_last());
                let before = start.rewind();
                assert(before.passable(behind(start.player, d)));
                assert(behind(start.player, d) == ahead(start.player, opposite(d)));
            }
            let back = neighbour(here, reverse(d)).unwrap();
            match act {
                Actions::Move(_) => {
                    self.set_player_position(back.0, back.1);
                    assert(self@ == start.rewind());
                },
                Actions::Push(_) => {
                    proof {
                        let before = start.rewind();
                        assert(before.free(ahead(start.player, d)));
                        assert(start.has_box(ahead(start.player, d))) by {
                            let i = before.boxes.index_of(start.player);
                            assert(before.boxes.contains(start.player));
                            assert(start.boxes[i] == ahead(start.player, d));
                        }
                        let k = start.boxes.index_of(ahead(start.player, d));
                        assert(start.passable(start.boxes[k]));
                    }
                    let front = neighbour(here, d).unwrap();
                    self.set_player_position(back.0, back.1);
                    self.move_box(front, here);
                    assert(self@ == start.rewind());
                },
            }
        } else {
            assert(self@ == start);
        }
    }
}

} // verus!
