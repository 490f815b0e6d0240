//! Depth-first search with a depth limit, and iterative deepening on top.

use vstd::prelude::*;
use crate::board::{reverse, GameBoard, DIRECTIONS};
use crate::laws::undo_inverts_move;
use crate::model::{heading, opposite, Actions, Board, Directions};
use crate::path::{
    order, place_of, play, play_extends_history, play_in_two, play_one, steady, tried, turns_back,
    wins, wins_by_first_step,
};
use crate::watch::Observer;

verus! {

/// The winning position at which the bounded search from `s` stops, or `None`
/// where it finds none. A position that is won already is the answer; a
/// history that has reached `limit` actions gives up; otherwise the four
/// directions are tried in order.
pub open spec fn search(s: Board, limit: nat) -> Option<Board>
    decreases limit - s.actions.len(), 5int,
{
    if s.won() {
        Some(s)
    } else if s.actions.len() >= limit {
        None
    } else {
        search_from(s, limit, 0)
    }
}

/// The bounded search from `s` through the directions from number `k` on: a
/// direction that turns back or is blocked is passed over, and the first
/// direction whose step leads to a win decides.
pub open spec fn search_from(s: Board, limit: nat, k: int) -> Option<Board>
    decreases limit - s.actions.len(), 4 - k,
{
    if k < 0 || k >= 4 || s.actions.len() >= limit {
        None
    } else {
        let d = order()[k];
        if turns_back(s.actions, d) || s.attempt(d) is None {
            search_from(s, limit, k + 1)
        } else {
            match search(s.step(d), limit) {
                Some(w) => Some(w),
                None => search_from(s, limit, k + 1),
            }
        }
    }
}

/// The bounded search from `s` with each limit from `from` up to but not
/// including `to`: the first limit that finds a win, with the winning
/// position.
pub open spec fn deepen(s: Board, from: nat, to: nat) -> Option<(nat, Board)>
    decreases to - from,
{
    if from >= to {
        None
    } else {
        match search(s, from) {
            Some(w) => Some((from, w)),
            None => deepen(s, from + 1, to),
        }
    }
}

/// Whether a step in direction `d` would exactly reverse the plain step that
/// `last` made.
pub fn reverses(last: Option<Actions>, d: Directions) -> (yes: bool)
    ensures
        yes == (last == Some(Actions::Move(opposite(d)))),
{
    match last {
        Some(Actions::Move(l)) => l == reverse(d),
        _ => false,
    }
}

/// Searches depth-first for a win within `max_deep` actions of history,
/// playing on `game` itself. A step that would exactly reverse the plain step
/// before it is never tried. On success the board is left in the winning
/// position, its history the solution; on failure it is left as it was. The
/// observer is shown the board after every step taken.
pub fn dfs<O: Observer>(game: &mut GameBoard, max_deep: usize, observer: &mut O) -> (found: bool)
    requires
        old(game)@.valid(),
    ensures
        final(game)@.valid(),
        found == search(old(game)@, max_deep as nat) is Some,
        final(game)@ == match search(old(game)@, max_deep as nat) {
            Some(w) => w,
            None => old(game)@,
        },
    decreases max_deep - old(game)@.actions.len(),
{
    if game.is_win() {
        return true;
    }
    if game.actions().len() >= max_deep {
        return false;
    }
    let ghost start = game@;
    let ghost limit = max_deep as nat;
    let all = DIRECTIONS;
    assert(all@ =~= order());
    let mut k: usize = 0;
    while k < 4
        invariant
            k <= 4,
            all@ == order(),
            game@ == start,
            start == old(game)@,
            start.valid(),
            !start.won(),
            start.actions.len() < limit,
            limit == max_deep,
            search(start, limit) == search_from(start, limit, k as int),
        decreases 4 - k,
    {
        let d = all[k];
        assert(d == order()[k as int]);
        k += 1;
        if reverses(game.last_action(), d) {
            continue;
        }
        if game.move_(&d).is_none() {
            continue;
        }
        assert(game@ == start.step(d));
        observer.visit(game);
        if dfs(game, max_deep, observer) {
            return true;
        }
        proof {
            undo_inverts_move(start, d);
        }
        game.undo();
    }
    false
}

/// Searches with growing depth limits, from `from` up to but not including
/// `to`, each time from the board as it is handed in. Returns the first limit
/// at which the search wins and leaves the board in the winning position;
/// returns `None` and leaves the board as it was where no limit wins.
pub fn iterative_deepening<O: Observer>(
    game: &mut GameBoard,
    from: usize,
    to: usize,
    observer: &mut O,
) -> (depth: Option<usize>)
    requires
        old(game)@.valid(),
    ensures
        final(game)@.valid(),
        match depth {
            Some(n) => deepen(old(game)@, from as nat, to as nat) == Some((n as nat, final(game)@)),
            None => deepen(old(game)@, from as nat, to as nat) is None && final(game)@ == old(
                game,
            )@,
        },
{
    let ghost start = game@;
    let mut limit: usize = from;
    while limit < to
        invariant
            game@ == start,
            start == old(game)@,
            start.valid(),
            deepen(start, from as nat, to as nat) == deepen(start, limit as nat, to as nat),
        decreases to - limit,
    {
        if dfs(game, limit, observer) {
            return Some(limit);
        }
        limit += 1;
    }
    None
}

/// What the bounded search finds is a solution: the position is won, and the
/// actions that its history adds, played one after another from the starting
/// position, all succeed and lead to it.
pub proof fn search_finds_solutions(s: Board, limit: nat)
    requires
        search(s, limit) is Some,
    ensures
        search(s, limit)->0.won(),
        s.actions.len() <= search(s, limit)->0.actions.len(),
        play(s, search(s, limit)->0.actions.skip(s.actions.len() as int)) == search(s, limit),
    decreases limit - s.actions.len(), 5int,
{
    if s.won() {
        assert(s.actions.skip(s.actions.len() as int) =~= Seq::<Actions>::empty());
    } else {
        search_from_finds_solutions(s, limit, 0);
    }
}

/// The same of the search through the directions from number `k` on.
pub proof fn search_from_finds_solutions(s: Board, limit: nat, k: int)
    requires
        search_from(s, limit, k) is Some,
    ensures
        search_from(s, limit, k)->0.won(),
        s.actions.len() <= search_from(s, limit, k)->0.actions.len(),
        play(s, search_from(s, limit, k)->0.actions.skip(s.actions.len() as int)) == search_from(
            s,
            limit,
            k,
        ),
    decreases limit - s.actions.len(), 4 - k,
{
    let d = order()[k];
    if turns_back(s.actions, d) || s.attempt(d) is None {
        search_from_finds_solutions(s, limit, k + 1);
    } else {
        let t = s.step(d);
        match search(t, limit) {
            Some(w) => {
                search_finds_solutions(t, limit);
                let a = s.attempt(d)->0;
                let rest = w.actions.skip(t.actions.len() as int);
                play_one(s, d);
                play_in_two(s, seq![a], rest);
                play_extends_history(t, rest);
                assert(w.actions.skip(s.actions.len() as int) =~= seq![a] + rest);
            },
            None => {
                search_from_finds_solutions(s, limit, k + 1);
            },
        }
    }
}

/// The bounded search keeps to its limit: started on a history no longer than
/// `limit`, it never finds a position with a longer one.
pub proof fn search_keeps_limit(s: Board, limit: nat)
    requires
        search(s, limit) is Some,
        s.actions.len() <= limit,
    ensures
        search(s, limit)->0.actions.len() <= limit,
    decreases limit - s.actions.len(), 5int,
{
    if !s.won() {
        search_from_keeps_limit(s, limit, 0);
    }
}

/// The same of the search through the directions from number `k` on.
pub proof fn search_from_keeps_limit(s: Board, limit: nat, k: int)
    requires
        search_from(s, limit, k) is Some,
    ensures
        search_from(s, limit, k)->0.actions.len() <= limit,
    decreases limit - s.actions.len(), 4 - k,
{
    let d = order()[k];
    if turns_back(s.actions, d) || s.attempt(d) is None {
        search_from_keeps_limit(s, limit, k + 1);
    } else {
        match search(s.step(d), limit) {
            Some(w) => {
                search_keeps_limit(s.step(d), limit);
            },
            None => {
                search_from_keeps_limit(s, limit, k + 1);
            },
        }
    }
}

/// The bounded search never turns back: in what it adds to the history, no
/// action exactly reverses a plain step right before it.
pub proof fn search_never_turns_back(s: Board, limit: nat)
    requires
        search(s, limit) is Some,
    ensures
        steady(search(s, limit)->0.actions, s.actions.len() as int),
    decreases limit - s.actions.len(), 5int,
{
    if !s.won() {
        search_from_never_turns_back(s, limit, 0);
    }
}

/// The same of the search through the directions from number `k` on.
pub proof fn search_from_never_turns_back(s: Board, limit: nat, k: int)
    requires
        search_from(s, limit, k) is Some,
    ensures
        steady(search_from(s, limit, k)->0.actions, s.actions.len() as int),
    decreases limit - s.actions.len(), 4 - k,
{
    let d = order()[k];
    if turns_back(s.actions, d) || s.attempt(d) is None {
        search_from_never_turns_back(s, limit, k + 1);
    } else {
        let t = s.step(d);
        match search(t, limit) {
            Some(w) => {
                search_never_turns_back(t, limit);
                search_finds_solutions(t, limit);
                play_extends_history(t, w.actions.skip(t.actions.len() as int));
                let n = s.actions.len() as int;
                assert(w.actions =~= t.actions + w.actions.skip(t.actions.len() as int));
                assert(w.actions.take(n) =~= s.actions);
                assert(w.actions[n] == s.attempt(d)->0);
            },
            None => {
                search_from_never_turns_back(s, limit, k + 1);
            },
        }
    }
}

/// Where the search through the directions finds nothing, the search from
/// every step it takes finds nothing.
proof fn search_from_fails_everywhere(s: Board, limit: nat, k: int, j: int)
    requires
        0 <= k <= j < 4,
        s.actions.len() < limit,
        search_from(s, limit, k) is None,
        tried(s, order()[j]),
    ensures
        search(s.step(order()[j]), limit) is None,
    decreases j - k,
{
    if k < j {
        search_from_fails_everywhere(s, limit, k + 1, j);
    }
}

/// The bounded search misses nothing: where it finds no win, every way to win
/// that never turns back makes the history longer than the limit.
pub proof fn search_misses_nothing(s: Board, limit: nat, path: Seq<Actions>)
    requires
        search(s, limit) is None,
        wins(s, path),
    ensures
        s.actions.len() + path.len() > limit,
    decreases path.len(),
{
    if path.len() == 0 {
        assert(play(s, path) == Some(s));
    } else if s.actions.len() < limit {
        let d = heading(path[0]);
        wins_by_first_step(s, path);
        let j = place_of(d);
        search_from_fails_everywhere(s, limit, 0, j);
        search_misses_nothing(s.step(d), limit, path.skip(1));
    }
}

} // verus!
