//! Playing a list of actions, and the rule against turning back.

use vstd::prelude::*;
use crate::model::{heading, opposite, Actions, Board, Directions};

verus! {

/// The four directions, in the order in which the solvers try them.
pub open spec fn order() -> Seq<Directions> {
    seq![Directions::Left, Directions::Right, Directions::Up, Directions::Down]
}

/// The position that playing `path` from `s` leads to: every action in turn
/// must be the very action that a step in its direction performs. `None` where
/// some action of the path cannot be played.
pub open spec fn play(s: Board, path: Seq<Actions>) -> Option<Board>
    decreases path.len(),
{
    if path.len() == 0 {
        Some(s)
    } else {
        match play(s, path.drop_last()) {
            Some(m) => if m.attempt(heading(path.last())) == Some(path.last()) {
                Some(m.apply(path.last()))
            } else {
                None
            },
            None => None,
        }
    }
}

/// A step in direction `d` would exactly reverse the plain step that the
/// history ends with.
pub open spec fn turns_back(history: Seq<Actions>, d: Directions) -> bool {
    history.len() > 0 && history.last() == Actions::Move(opposite(d))
}

/// From entry `from` on, no action of the history exactly reverses a plain
/// step that stands right before it.
pub open spec fn steady(history: Seq<Actions>, from: int) -> bool {
    forall|i: int|
        from <= i < history.len() ==> !turns_back(#[trigger] history.take(i), heading(history[i]))
}

/// Playing a path appends it to the history and leaves grid and targets
/// alone.
pub proof fn play_extends_history(s: Board, path: Seq<Actions>)
    requires
        play(s, path) is Some,
    ensures
        play(s, path)->0.actions == s.actions + path,
        play(s, path)->0.grid == s.grid,
        play(s, path)->0.targets == s.targets,
    decreases path.len(),
{
    if path.len() == 0 {
        assert(s.actions + path =~= s.actions);
    } else {
        play_extends_history(s, path.drop_last());
        let m = play(s, path.drop_last())->0;
        assert(m.actions.push(path.last()) =~= s.actions + path);
    }
}

/// Playing one path after another is playing the two joined.
pub proof fn play_in_two(s: Board, p: Seq<Actions>, q: Seq<Actions>)
    ensures
        play(s, p + q) == match play(s, p) {
            Some(m) => play(m, q),
            None => None,
        },
    decreases q.len(),
{
    if q.len() == 0 {
        assert(p + q =~= p);
    } else {
        play_in_two(s, p, q.drop_last());
        assert((p + q).drop_last() =~= p + q.drop_last());
        assert((p + q).last() == q.last());
    }
}

/// A single step that succeeds is a path of one action.
pub proof fn play_one(s: Board, d: Directions)
    requires
        s.attempt(d) is Some,
    ensures
        play(s, seq![s.attempt(d)->0]) == Some(s.step(d)),
{
    let a = s.attempt(d)->0;
    let path = seq![a];
    assert(path.drop_last() =~= Seq::<Actions>::empty());
    assert(play(s, path.drop_last()) == Some(s));
    assert(heading(a) == d);
}

/// The search takes a step in direction `d` from `s`: the step does not turn
/// back, and it is not blocked.
pub open spec fn tried(s: Board, d: Directions) -> bool {
    !turns_back(s.actions, d) && s.attempt(d) is Some
}

/// `b` was reached from `s` by play that never turns back: the history of `b`
/// continues that of `s`, the actions it adds lead from `s` to `b`, and none
/// of them exactly reverses a plain step right before it.
pub open spec fn reached(s: Board, b: Board) -> bool {
    &&& s.actions.len() <= b.actions.len()
    &&& play(s, b.actions.skip(s.actions.len() as int)) == Some(b)
    &&& steady(b.actions, s.actions.len() as int)
}

/// `path` is a way to win from `s` that never turns back.
pub open spec fn wins(s: Board, path: Seq<Actions>) -> bool {
    &&& play(s, path) is Some
    &&& play(s, path)->0.won()
    &&& steady(s.actions + path, s.actions.len() as int)
}

/// The place of a direction in the order of trial.
pub proof fn place_of(d: Directions) -> (k: int)
    ensures
        0 <= k < 4,
        order()[k] == d,
{
    match d {
        Directions::Left => 0,
        Directions::Right => 1,
        Directions::Up => 2,
        Directions::Down => 3,
    }
}

/// Every position is reached from itself.
pub proof fn reached_itself(s: Board)
    ensures
        reached(s, s),
{
    assert(s.actions.skip(s.actions.len() as int) =~= Seq::<Actions>::empty());
}

/// A step that the search takes from a reached position leads to a reached
/// position.
pub proof fn reached_by_step(s: Board, b: Board, d: Directions)
    requires
        reached(s, b),
        tried(b, d),
    ensures
        reached(s, b.step(d)),
{
    let n = s.actions.len() as int;
    let a = b.attempt(d)->0;
    let c = b.step(d);
    let added = c.actions.skip(n);
    assert(added.drop_last() =~= b.actions.skip(n));
    assert(added.last() == a);
    assert(heading(a) == d);
    assert forall|i: int| n <= i < c.actions.len() implies !turns_back(
        #[trigger] c.actions.take(i),
        heading(c.actions[i]),
    ) by {
        if i < b.actions.len() {
            assert(c.actions.take(i) =~= b.actions.take(i));
        } else {
            assert(c.actions.take(i) =~= b.actions);
        }
    }
}

/// A path that can be played can be played up to any point.
pub proof fn play_prefix(s: Board, path: Seq<Actions>, n: int)
    requires
        play(s, path) is Some,
        0 <= n <= path.len(),
    ensures
        play(s, path.take(n)) is Some,
{
    play_in_two(s, path.take(n), path.skip(n));
    assert(path.take(n) + path.skip(n) =~= path);
}

/// The first action of a way to win is a step that the search takes, and the
/// rest of the way wins from where that step leads.
pub proof fn wins_by_first_step(s: Board, path: Seq<Actions>)
    requires
        wins(s, path),
        path.len() > 0,
    ensures
        tried(s, heading(path[0])),
        s.attempt(heading(path[0])) == Some(path[0]),
        wins(s.step(heading(path[0])), path.skip(1)),
        play(s.step(heading(path[0])), path.skip(1)) == play(s, path),
{
    let a = path[0];
    let d = heading(a);
    let rest = path.skip(1);
    let n = s.actions.len() as int;
    assert(seq![a] + rest =~= path);
    play_in_two(s, seq![a], rest);
    assert(seq![a].drop_last() =~= Seq::<Actions>::empty());
    assert(play(s, seq![a].drop_last()) == Some(s));
    assert(seq![a].last() == a);
    let m = s.step(d);
    let whole = s.actions + path;
    assert(whole.take(n) =~= s.actions);
    assert(whole[n] == a);
    assert(m.actions + rest =~= whole);
    assert forall|i: int| m.actions.len() <= i < (m.actions + rest).len() implies !turns_back(
        #[trigger] (m.actions + rest).take(i),
        heading((m.actions + rest)[i]),
    ) by {
        assert(!turns_back(whole.take(i), heading(whole[i])));
    }
}

} // verus!
