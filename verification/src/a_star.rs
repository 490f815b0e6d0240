//! Best-first search over copies of the board, guided by the distances
//! between targets and boxes.

use vstd::prelude::*;
use crate::board::{GameBoard, DIRECTIONS};
use crate::dfs::reverses;
use crate::laws::move_keeps_placement;
use crate::model::{heading, point, points, Actions, Board};
use crate::path::{
    order, place_of, play, play_extends_history, play_prefix, reached, reached_by_step,
    reached_itself, tried, turns_back, wins,
};
use crate::watch::Observer;

verus! {

/// The Manhattan distance between two coordinates.
pub open spec fn distance(a: (int, int), b: (int, int)) -> nat {
    let dx = if a.0 > b.0 {
        a.0 - b.0
    } else {
        b.0 - a.0
    };
    let dy = if a.1 > b.1 {
        a.1 - b.1
    } else {
        b.1 - a.1
    };
    (dx + dy) as nat
}

/// The least distance from `t` to any of `boxes`; 0 where there is no box.
pub open spec fn nearest(t: (int, int), boxes: Seq<(int, int)>) -> nat
    decreases boxes.len(),
{
    if boxes.len() == 0 {
        0
    } else if boxes.len() == 1 {
        distance(t, boxes[0])
    } else {
        let rest = nearest(t, boxes.drop_last());
        let d = distance(t, boxes.last());
        if d < rest {
            d
        } else {
            rest
        }
    }
}

/// The sum, over `targets`, of the least distance from the target to any of
/// `boxes`.
pub open spec fn total(targets: Seq<(int, int)>, boxes: Seq<(int, int)>) -> nat
    decreases targets.len(),
{
    if targets.len() == 0 {
        0
    } else {
        total(targets.drop_last(), boxes) + nearest(targets.last(), boxes)
    }
}

/// The estimate of the work left in a position: for every target, the
/// distance to its nearest box, summed up.
pub open spec fn estimate(s: Board) -> nat {
    total(s.targets, s.boxes)
}

/// The least distance is a distance to one of the boxes, and no box is
/// nearer.
pub proof fn nearest_is_least(t: (int, int), boxes: Seq<(int, int)>)
    requires
        boxes.len() > 0,
    ensures
        exists|i: int| 0 <= i < boxes.len() && nearest(t, boxes) == distance(t, #[trigger] boxes[i]),
        forall|i: int| 0 <= i < boxes.len() ==> nearest(t, boxes) <= distance(t, #[trigger] boxes[i]),
    decreases boxes.len(),
{
    if boxes.len() == 1 {
        assert(nearest(t, boxes) == distance(t, boxes[0]));
    } else {
        let rest = boxes.drop_last();
        nearest_is_least(t, rest);
        let i = choose|i: int| 0 <= i < rest.len() && nearest(t, rest) == distance(t, #[trigger] rest[i]);
        if distance(t, boxes.last()) < nearest(t, rest) {
            assert(nearest(t, boxes) == distance(t, boxes[boxes.len() - 1]));
        } else {
            assert(nearest(t, boxes) == distance(t, boxes[i]));
        }
        assert forall|j: int| 0 <= j < boxes.len() implies nearest(t, boxes) <= distance(
            t,
            #[trigger] boxes[j],
        ) by {
            if j < rest.len() {
                assert(rest[j] == boxes[j]);
            }
        }
    }
}

/// Summing over more targets never gives less.
proof fn total_grows(targets: Seq<(int, int)>, boxes: Seq<(int, int)>, n: int)
    requires
        0 <= n <= targets.len(),
    ensures
        total(targets.take(n), boxes) <= total(targets, boxes),
    decreases targets.len(),
{
    if n == targets.len() {
        assert(targets.take(n) =~= targets);
    } else {
        total_grows(targets.drop_last(), boxes, n);
        assert(targets.drop_last().take(n) =~= targets.take(n));
    }
}

/// The estimate for a position: the sum, over all targets, of the Manhattan
/// distance from the target to its nearest box. A board without boxes has
/// estimate 0.
pub fn heuristic(game: &GameBoard) -> (cost: usize)
    requires
        estimate(game@) <= usize::MAX,
    ensures
        cost == estimate(game@),
{
    let targets = game.targets();
    let boxes = game.boxes();
    let ghost ts = game@.targets;
    let ghost bs = game@.boxes;
    let mut sum: u128 = 0;
    let mut j: usize = 0;
    while j < targets.len()
        invariant
            j <= targets.len(),
            ts == points(targets@),
            bs == points(boxes@),
            sum == total(ts.take(j as int), bs),
            total(ts, bs) <= usize::MAX,
        decreases targets.len() - j,
    {
        let t = targets[j];
        let mut best: u128 = 0;
        let mut i: usize = 0;
        while i < boxes.len()
            invariant
                i <= boxes.len(),
                bs == points(boxes@),
                best == nearest(point(t), bs.take(i as int)),
                best <= 2 * usize::MAX,
            decreases boxes.len() - i,
        {
            let b = boxes[i];
            let dx: usize = if t.0 > b.0 {
                t.0 - b.0
            } else {
                b.0 - t.0
            };
            let dy: usize = if t.1 > b.1 {
                t.1 - b.1
            } else {
                b.1 - t.1
            };
            let d: u128 = dx as u128 + dy as u128;
            proof {
                let s = bs.take(i + 1);
                assert(s.drop_last() =~= bs.take(i as int));
                assert(s.last() == point(b));
                assert(d == distance(point(t), point(b)));
            }
            if i == 0 || d < best {
                best = d;
            }
            i += 1;
        }
        proof {
            assert(bs.take(i as int) =~= bs);
            let s = ts.take(j + 1);
            assert(s.drop_last() =~= ts.take(j as int));
            assert(s.last() == point(t));
            total_grows(ts, bs, j + 1);
        }
        sum = sum + best;
        j += 1;
    }
    assert(ts.take(j as int) =~= ts);
    sum as usize
}

/// How a best-first search ends.
#[derive(Debug)]
pub enum Outcome<T> {
    /// A winning position was reached.
    Solved(T),
    /// Every position in reach was expanded and none of their steps wins.
    Exhausted,
    /// The budget of expansions ran out first.
    OutOfBudget,
}

/// The priority of a position: its estimate plus the length of its history.
pub open spec fn cost(s: Board) -> nat {
    estimate(s) + s.actions.len()
}

/// The place of the position of least priority in a list, the first of them
/// where several share it.
pub open spec fn cheapest(list: Seq<Board>) -> int
    decreases list.len(),
{
    if list.len() <= 1 {
        0
    } else {
        let k = cheapest(list.drop_last());
        if cost(list.last()) < cost(list[k]) {
            list.len() - 1
        } else {
            k
        }
    }
}

/// The first winning position among the steps from `s` in the directions from
/// number `k` on.
pub open spec fn winner(s: Board, k: int) -> Option<Board>
    decreases 4 - k,
{
    if k < 0 || k >= 4 {
        None
    } else if tried(s, order()[k]) && s.step(order()[k]).won() {
        Some(s.step(order()[k]))
    } else {
        winner(s, k + 1)
    }
}

/// The positions that the steps from `s` in the first `n` directions lead to,
/// in the order of the directions.
pub open spec fn children(s: Board, n: int) -> Seq<Board>
    decreases n,
{
    if n <= 0 || n > 4 {
        Seq::empty()
    } else if tried(s, order()[n - 1]) {
        children(s, n - 1).push(s.step(order()[n - 1]))
    } else {
        children(s, n - 1)
    }
}

/// The best-first search from a list of open positions, with `budget`
/// expansions left. Each round takes the position of least priority off the
/// list and steps from it in the four directions: the first step that wins
/// ends the search, and otherwise the positions reached join the end of the
/// list.
pub open spec fn best_first(open: Seq<Board>, budget: nat) -> Outcome<Board>
    decreases budget,
{
    if open.len() == 0 {
        Outcome::Exhausted
    } else if budget == 0 {
        Outcome::OutOfBudget
    } else {
        let k = cheapest(open);
        match winner(open[k], 0) {
            Some(w) => Outcome::Solved(w),
            None => best_first(open.remove(k) + children(open[k], 4), (budget - 1) as nat),
        }
    }
}

/// A bound on the estimate that the grid alone gives: the number of targets
/// times the sum of the grid's height and width.
pub open spec fn span(s: Board) -> nat {
    s.targets.len() * (s.grid.len() + s.grid[0].len())
}

/// No position is taken before a cheaper one.
pub proof fn cheapest_is_least(list: Seq<Board>)
    requires
        list.len() > 0,
    ensures
        0 <= cheapest(list) < list.len(),
        forall|i: int| 0 <= i < list.len() ==> cost(list[cheapest(list)]) <= cost(#[trigger] list[i]),
    decreases list.len(),
{
    if list.len() > 1 {
        let rest = list.drop_last();
        cheapest_is_least(rest);
        assert forall|i: int| 0 <= i < list.len() implies cost(list[cheapest(list)]) <= cost(
            #[trigger] list[i],
        ) by {
            if i < rest.len() {
                assert(rest[i] == list[i]);
            }
        }
    }
}

/// On a placed board the estimate stays within the span of the grid.
pub proof fn estimate_within_span(s: Board)
    requires
        s.placed(),
    ensures
        estimate(s) <= span(s),
{
    let reach = (s.grid.len() + s.grid[0].len()) as nat;
    assert forall|t: (int, int)| s.cell(t) is Some implies nearest(t, s.boxes) <= reach by {
        if s.boxes.len() > 0 {
            nearest_is_least(t, s.boxes);
            let b = s.boxes[0];
            assert(s.passable(b));
            assert(s.grid[b.1].len() == s.grid[0].len());
            assert(s.grid[t.1].len() == s.grid[0].len());
            assert(distance(t, b) <= reach);
        }
    }
    total_within(s, s.targets.len() as int, reach);
    assert(s.targets.take(s.targets.len() as int) =~= s.targets);
}

/// The sum over the first `n` targets stays within `n` times a bound on each
/// of its terms.
proof fn total_within(s: Board, n: int, reach: nat)
    requires
        0 <= n <= s.targets.len(),
        s.targets_marked(),
        forall|t: (int, int)| s.cell(t) is Some ==> nearest(t, s.boxes) <= reach,
    ensures
        total(s.targets.take(n), s.boxes) <= n * reach,
    decreases n,
{
    if n > 0 {
        total_within(s, n - 1, reach);
        let part = s.targets.take(n);
        assert(part.drop_last() =~= s.targets.take(n - 1));
        assert(part.last() == s.targets[n - 1]);
        assert(s.targets.contains(s.targets[n - 1]));
        assert(s.cell(s.targets[n - 1]) is Some);
        assert(n * reach == (n - 1) * reach + reach) by (nonlinear_arith);
    } else {
        assert(0 * reach == 0) by (nonlinear_arith);
    }
}

/// A position waiting to be expanded, with its priority.
#[derive(Debug)]
pub struct State {
    pub cost: usize,
    pub game: GameBoard,
}

impl State {
    /// The board can be played on and the priority is the one that belongs to
    /// it.
    pub open spec fn sound(self) -> bool {
        self.game@.valid() && self.cost == cost(self.game@)
    }
}

/// The positions that a list of states holds.
pub open spec fn boards(list: Seq<State>) -> Seq<Board> {
    Seq::new(list.len(), |i: int| list[i].game@)
}

/// Takes the state of least priority out of a list, the first of them where
/// several share it; the others keep their order.
pub fn take_cheapest(list: &mut Vec<State>) -> (node: State)
    requires
        old(list)@.len() > 0,
        forall|i: int| 0 <= i < old(list)@.len() ==> (#[trigger] old(list)@[i]).sound(),
    ensures
        0 <= cheapest(boards(old(list)@)) < old(list)@.len(),
        node == old(list)@[cheapest(boards(old(list)@))],
        final(list)@ == old(list)@.remove(cheapest(boards(old(list)@))),
{
    let ghost all = boards(list@);
    let mut best: usize = 0;
    let mut i: usize = 1;
    proof {
        assert(all.take(1).drop_last().len() == 0);
    }
    while i < list.len()
        invariant
            1 <= i <= list.len(),
            all == boards(list@),
            forall|k: int| 0 <= k < list@.len() ==> (#[trigger] list@[k]).sound(),
            best == cheapest(all.take(i as int)),
            0 <= best < i,
        decreases list.len() - i,
    {
        proof {
            let part = all.take(i + 1);
            assert(part.drop_last() =~= all.take(i as int));
            assert(part.last() == all[i as int]);
            assert(part[best as int] == all[best as int]);
            assert(list@[i as int].sound() && list@[best as int].sound());
        }
        if list[i].cost < list[best].cost {
            best = i;
        }
        i += 1;
    }
    assert(all.take(i as int) =~= all);
    list.remove(best)
}

/// Steps from `node` in the four directions, in order, never turning back. The
/// first step that wins is returned at once. Otherwise every position reached
/// joins the end of `list` with its priority, in the order of the directions.
fn grow(node: &GameBoard, list: &mut Vec<State>) -> (won: Option<GameBoard>)
    requires
        node@.valid(),
        span(node@) + node@.actions.len() + 1 <= usize::MAX,
        forall|i: int| 0 <= i < old(list)@.len() ==> (#[trigger] old(list)@[i]).sound(),
    ensures
        forall|i: int| 0 <= i < final(list)@.len() ==> (#[trigger] final(list)@[i]).sound(),
        match won {
            Some(w) => winner(node@, 0) == Some(w@) && w@.valid(),
            None => winner(node@, 0) is None && boards(final(list)@) == boards(old(list)@)
                + children(node@, 4),
        },
{
    let ghost before = boards(list@);
    let all = DIRECTIONS;
    assert(all@ =~= order());
    let mut k: usize = 0;
    while k < 4
        invariant
            k <= 4,
            all@ == order(),
            node@.valid(),
            span(node@) + node@.actions.len() + 1 <= usize::MAX,
            forall|i: int| 0 <= i < list@.len() ==> (#[trigger] list@[i]).sound(),
            winner(node@, 0) == winner(node@, k as int),
            boards(list@) == before + children(node@, k as int),
        decreases 4 - k,
    {
        let d = all[k];
        assert(d == order()[k as int]);
        k += 1;
        if reverses(node.last_action(), d) {
            continue;
        }
        let mut next = node.clone();
        if next.move_(&d).is_none() {
            continue;
        }
        assert(next@ == node@.step(d));
        if next.is_win() {
            return Some(next);
        }
        proof {
            move_keeps_placement(node@, d);
            estimate_within_span(next@);
            assert(span(next@) == span(node@));
        }
        let ghost so_far = boards(list@);
        let cost = heuristic(&next) + next.actions().len();
        list.push(State { cost, game: next });
        assert(boards(list@) =~= so_far.push(node@.step(d)));
    }
    None
}

/// The largest budget that the best-first search can be given on this board:
/// with it, the priority of every position that the search can reach stays in
/// the range of `usize`. `None` where not even the starting position's does.
pub fn largest_budget(game: &GameBoard) -> (budget: Option<usize>)
    requires
        game@.grid.len() > 0,
    ensures
        match budget {
            Some(b) => span(game@) + game@.actions.len() + b == usize::MAX,
            None => span(game@) + game@.actions.len() > usize::MAX,
        },
{
    let count = game.targets().len();
    let height = game.height();
    let width = game.width();
    let ghost side = height + width;
    let wide: usize = if count == 0 {
        assert(0 * side == 0) by (nonlinear_arith);
        0
    } else {
        let sum = match height.checked_add(width) {
            Some(sum) => sum,
            None => {
                assert(count * side >= side) by (nonlinear_arith)
                    requires
                        count >= 1,
                        side >= 0,
                ;
                return None;
            },
        };
        match count.checked_mul(sum) {
            Some(wide) => wide,
            None => {
                return None;
            },
        }
    };
    match wide.checked_add(game.actions().len()) {
        Some(used) => Some(usize::MAX - used),
        None => None,
    }
}

/// Searches best-first for a win, expanding at most `budget` positions, on
/// copies of `game`. The position with the least estimate plus history length
/// is expanded first. The board handed in is only a starting point: a win is
/// looked for among the steps taken from it. The observer is shown every
/// position that is taken up for expansion.
pub fn a_star<O: Observer>(game: &GameBoard, budget: usize, observer: &mut O) -> (result: Outcome<
    GameBoard,
>)
    requires
        game@.valid(),
        span(game@) + game@.actions.len() + budget <= usize::MAX,
    ensures
        match result {
            Outcome::Solved(w) => best_first(seq![game@], budget as nat) == Outcome::Solved(w@)
                && w@.valid(),
            Outcome::Exhausted => best_first(seq![game@], budget as nat) == Outcome::<
                Board,
            >::Exhausted,
            Outcome::OutOfBudget => best_first(seq![game@], budget as nat) == Outcome::<
                Board,
            >::OutOfBudget,
        },
{
    proof {
        estimate_within_span(game@);
    }
    let mut queue: Vec<State> = Vec::new();
    queue.push(State { cost: heuristic(game) + game.actions().len(), game: game.clone() });
    assert(boards(queue@) =~= seq![game@]);
    let mut left: usize = budget;
    while queue.len() > 0
        invariant
            forall|i: int| 0 <= i < queue@.len() ==> (#[trigger] queue@[i]).sound(),
            forall|i: int|
                0 <= i < queue@.len() ==> span((#[trigger] queue@[i]).game@) + queue@[i].game@.actions.len()
                    + left <= usize::MAX,
            best_first(seq![game@], budget as nat) == best_first(boards(queue@), left as nat),
        decreases left,
    {
        if left == 0 {
            return Outcome::OutOfBudget;
        }
        let ghost open = boards(queue@);
        let ghost waiting = queue@;
        let node = take_cheapest(&mut queue);
        let ghost k = cheapest(open);
        proof {
            assert(open[k] == node.game@);
            assert(node.sound());
            assert(boards(queue@) =~= open.remove(k));
            assert forall|i: int| 0 <= i < queue@.len() implies (#[trigger] queue@[i]).sound()
                && span(queue@[i].game@) + queue@[i].game@.actions.len() + left <= usize::MAX by {
                if i < k {
                    assert(queue@[i] == waiting[i]);
                } else {
                    assert(queue@[i] == waiting[i + 1]);
                }
            }
        }
        observer.visit(&node.game);
        let ghost kept = queue@;
        match grow(&node.game, &mut queue) {
            Some(w) => {
                return Outcome::Solved(w);
            },
            None => {},
        }
        left -= 1;
        proof {
            children_near(node.game@, 4);
            assert forall|i: int| 0 <= i < queue@.len() implies span((#[trigger] queue@[i]).game@)
                + queue@[i].game@.actions.len() + left <= usize::MAX by {
                assert(boards(queue@)[i] == queue@[i].game@);
                if i < kept.len() {
                    assert(boards(kept)[i] == kept[i].game@);
                    assert(boards(queue@)[i] == boards(kept)[i]);
                } else {
                    assert(boards(queue@)[i] == children(node.game@, 4)[i - kept.len()]);
                }
            }
        }
    }
    Outcome::Exhausted
}

/// Every position that the steps from `s` lead to has the span of `s` and a
/// history one action longer.
proof fn children_near(s: Board, n: int)
    requires
        s.placed(),
    ensures
        forall|i: int|
            0 <= i < children(s, n).len() ==> span(#[trigger] children(s, n)[i]) == span(s)
                && children(s, n)[i].actions.len() == s.actions.len() + 1,
    decreases n,
{
    if 0 < n <= 4 {
        children_near(s, n - 1);
        let d = order()[n - 1];
        move_keeps_placement(s, d);
        let rest = children(s, n - 1);
        assert forall|i: int| 0 <= i < children(s, n).len() implies span(
            #[trigger] children(s, n)[i],
        ) == span(s) && children(s, n)[i].actions.len() == s.actions.len() + 1 by {
            if i < rest.len() {
                assert(children(s, n)[i] == rest[i]);
            } else {
                assert(children(s, n)[i] == s.step(d));
            }
        }
    }
}

/// A winner among the steps from a reached position is itself reached, and it
/// is won.
proof fn winner_reached(s: Board, b: Board, k: int)
    requires
        reached(s, b),
        winner(b, k) is Some,
    ensures
        reached(s, winner(b, k)->0),
        winner(b, k)->0.won(),
    decreases 4 - k,
{
    if tried(b, order()[k]) && b.step(order()[k]).won() {
        reached_by_step(s, b, order()[k]);
    } else {
        winner_reached(s, b, k + 1);
    }
}

/// The positions that the steps from a reached position lead to are reached.
proof fn children_reached(s: Board, b: Board, n: int)
    requires
        reached(s, b),
    ensures
        forall|i: int| 0 <= i < children(b, n).len() ==> reached(s, #[trigger] children(b, n)[i]),
    decreases n,
{
    if 0 < n <= 4 {
        children_reached(s, b, n - 1);
        let d = order()[n - 1];
        if tried(b, d) {
            reached_by_step(s, b, d);
        }
        let rest = children(b, n - 1);
        assert forall|i: int| 0 <= i < children(b, n).len() implies reached(
            s,
            #[trigger] children(b, n)[i],
        ) by {
            if i < rest.len() {
                assert(children(b, n)[i] == rest[i]);
            }
        }
    }
}

/// What the search finds from a list of reached positions is reached and won.
proof fn best_first_reached(s: Board, open: Seq<Board>, budget: nat)
    requires
        forall|i: int| 0 <= i < open.len() ==> reached(s, #[trigger] open[i]),
        best_first(open, budget) is Solved,
    ensures
        reached(s, best_first(open, budget)->Solved_0),
        best_first(open, budget)->Solved_0.won(),
    decreases budget,
{
    cheapest_is_least(open);
    let k = cheapest(open);
    match winner(open[k], 0) {
        Some(w) => {
            winner_reached(s, open[k], 0);
        },
        None => {
            let kids = children(open[k], 4);
            let next = open.remove(k) + kids;
            children_reached(s, open[k], 4);
            assert forall|i: int| 0 <= i < next.len() implies reached(s, #[trigger] next[i]) by {
                if i < k {
                    assert(next[i] == open[i]);
                } else if i < open.len() - 1 {
                    assert(next[i] == open[i + 1]);
                } else {
                    assert(next[i] == kids[i - (open.len() - 1)]);
                }
            }
            best_first_reached(s, next, (budget - 1) as nat);
        },
    }
}

/// What the best-first search finds is a solution: the position is won, and
/// the actions that its history adds, played one after another from the
/// starting position, all succeed and lead to it. None of them exactly
/// reverses a plain step right before it.
pub proof fn best_first_finds_solutions(s: Board, budget: nat)
    requires
        best_first(seq![s], budget) is Solved,
    ensures
        best_first(seq![s], budget)->Solved_0.won(),
        reached(s, best_first(seq![s], budget)->Solved_0),
{
    reached_itself(s);
    best_first_reached(s, seq![s], budget);
}

/// A step that the search takes and that wins makes a winner.
proof fn winner_found(b: Board, k: int, j: int)
    requires
        0 <= k <= j < 4,
        tried(b, order()[j]),
        b.step(order()[j]).won(),
    ensures
        winner(b, k) is Some,
    decreases j - k,
{
    if k < j && !(tried(b, order()[k]) && b.step(order()[k]).won()) {
        winner_found(b, k + 1, j);
    }
}

/// A step that the search takes is among the children.
proof fn child_listed(b: Board, j: int, n: int) -> (i: int)
    requires
        0 <= j < n <= 4,
        tried(b, order()[j]),
    ensures
        0 <= i < children(b, n).len(),
        children(b, n)[i] == b.step(order()[j]),
    decreases n,
{
    if j == n - 1 {
        children(b, n - 1).len() as int
    } else {
        child_listed(b, j, n - 1)
    }
}

/// While some open position lies on a way to win, short of its end, the
/// search is not exhausted.
proof fn best_first_stays_on(s: Board, open: Seq<Board>, budget: nat, path: Seq<Actions>, i: int, n: int)
    requires
        wins(s, path),
        0 <= i < open.len(),
        0 <= n < path.len(),
        play(s, path.take(n)) == Some(open[i]),
    ensures
        !(best_first(open, budget) is Exhausted),
    decreases budget,
{
    if budget > 0 {
        cheapest_is_least(open);
        let k = cheapest(open);
        if winner(open[k], 0) is None {
            let kids = children(open[k], 4);
            let next = open.remove(k) + kids;
            if i < k {
                assert(next[i] == open[i]);
                best_first_stays_on(s, next, (budget - 1) as nat, path, i, n);
            } else if i > k {
                assert(next[i - 1] == open[i]);
                best_first_stays_on(s, next, (budget - 1) as nat, path, i - 1, n);
            } else {
                let b = open[k];
                let a = path[n];
                let d = heading(a);
                let m = s.actions.len() as int;
                play_prefix(s, path, n + 1);
                let upto = path.take(n + 1);
                assert(upto.drop_last() =~= path.take(n));
                assert(upto.last() == a);
                assert(b.attempt(d) == Some(a));
                assert(play(s, upto) == Some(b.step(d)));
                play_extends_history(s, path.take(n));
                let whole = s.actions + path;
                assert(whole.take(m + n) =~= b.actions);
                assert(whole[m + n] == a);
                assert(!turns_back(whole.take(m + n), heading(whole[m + n])));
                assert(tried(b, d));
                let j = place_of(d);
                if n + 1 == path.len() {
                    assert(upto =~= path);
                    winner_found(b, 0, j);
                } else {
                    let c = child_listed(b, j, 4);
                    assert(next[open.len() - 1 + c] == kids[c]);
                    best_first_stays_on(s, next, (budget - 1) as nat, path, open.len() - 1 + c, n + 1);
                }
            }
        }
    }
}

/// The best-first search misses nothing: where it ends exhausted, no way to
/// win of one action or more, that never turns back, leads from the starting
/// position.
pub proof fn best_first_misses_nothing(s: Board, budget: nat, path: Seq<Actions>)
    requires
        best_first(seq![s], budget) is Exhausted,
        path.len() > 0,
    ensures
        !wins(s, path),
{
    if wins(s, path) {
        assert(path.take(0) =~= Seq::<Actions>::empty());
        best_first_stays_on(s, seq![s], budget, path, 0, 0);
    }
}

} // verus!
