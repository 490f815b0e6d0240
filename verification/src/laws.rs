//! What holds of every position and every transition of the model.

use vstd::prelude::*;
use crate::model::{ahead, behind, heading, Actions, Board, Directions, Entities};

verus! {

/// A pushed box is found again: after a push, the only box on the cell ahead
/// of the player is the one that was pushed.
proof fn lemma_pushed_box_index(s: Board, d: Directions)
    requires
        s.placed(),
        s.attempt(d) == Some(Actions::Push(d)),
    ensures
        0 <= s.boxes.index_of(ahead(s.player, d)) < s.boxes.len(),
        s.boxes[s.boxes.index_of(ahead(s.player, d))] == ahead(s.player, d),
        s.apply(Actions::Push(d)).boxes.index_of(ahead(ahead(s.player, d), d))
            == s.boxes.index_of(ahead(s.player, d)),
{
    let to = ahead(s.player, d);
    let far = ahead(to, d);
    let i = s.boxes.index_of(to);
    assert(s.boxes.contains(to));
    let after = s.apply(Actions::Push(d)).boxes;
    assert(after == s.boxes.update(i, far));
    assert(after[i] == far);
    let j = after.index_of(far);
    assert(0 <= j < after.len() && after[j] == far);
    if j != i {
        assert(s.boxes[j] == far);
        assert(s.boxes.contains(far));
    }
}

/// Taking back a step that was just made restores the position exactly: grid,
/// targets, player, boxes and history.
pub proof fn undo_inverts_move(s: Board, d: Directions)
    requires
        s.placed(),
        s.attempt(d) is Some,
    ensures
        s.step(d).rewind() == s,
{
    let a = s.attempt(d)->0;
    let t = s.step(d);
    let r = t.rewind();
    assert(t.actions.last() == a);
    assert(t.actions.drop_last() =~= s.actions);
    assert(behind(ahead(s.player, d), d) == s.player);
    match a {
        Actions::Move(_) => {},
        Actions::Push(_) => {
            lemma_pushed_box_index(s, d);
            assert(r.boxes =~= s.boxes);
        },
    }
}

/// A step never breaks the rules of placement: afterwards the player and
/// every box still stand on cells that are no wall, and no two boxes share a
/// cell.
pub proof fn move_keeps_placement(s: Board, d: Directions)
    requires
        s.placed(),
    ensures
        s.step(d).placed(),
        s.step(d).grid == s.grid,
        s.step(d).targets == s.targets,
        s.step(d).boxes.len() == s.boxes.len(),
{
    let t = s.step(d);
    match s.attempt(d) {
        None => {},
        Some(Actions::Move(_)) => {
            assert forall|p: (int, int)| t.cell(p) == s.cell(p) by {}
        },
        Some(Actions::Push(_)) => {
            lemma_pushed_box_index(s, d);
            let to = ahead(s.player, d);
            let far = ahead(to, d);
            let i = s.boxes.index_of(to);
            assert forall|p: (int, int)| t.cell(p) == s.cell(p) by {}
            assert(t.boxes == s.boxes.update(i, far));
            assert forall|j: int, k: int|
                0 <= j < t.boxes.len() && 0 <= k < t.boxes.len() && j != k implies t.boxes[j]
                != t.boxes[k] by {
                if j == i {
                    assert(s.boxes[k] != far) by {
                        if s.boxes[k] == far {
                            assert(s.boxes.contains(far));
                        }
                    }
                } else if k == i {
                    assert(s.boxes[j] != far) by {
                        if s.boxes[j] == far {
                            assert(s.boxes.contains(far));
                        }
                    }
                }
            }
            assert forall|j: int| 0 <= j < t.boxes.len() implies t.passable(
                #[trigger] t.boxes[j],
            ) by {
                if j != i {
                    assert(s.passable(s.boxes[j]));
                }
            }
        },
    }
}

/// A step from a position that play can reach gives a position that play can
/// reach.
pub proof fn move_keeps_valid(s: Board, d: Directions)
    requires
        s.valid(),
    ensures
        s.step(d).valid(),
{
    move_keeps_placement(s, d);
    if s.attempt(d) is Some {
        undo_inverts_move(s, d);
        let t = s.step(d);
        assert(t.actions.last() == s.attempt(d)->0);
        assert(heading(t.actions.last()) == d);
    }
}

/// Taking back the latest action of a position that play can reach gives a
/// position that play can reach, with a history one entry shorter; without
/// history nothing changes.
pub proof fn undo_keeps_valid(s: Board)
    requires
        s.valid(),
    ensures
        s.rewind().valid(),
        s.rewind().grid == s.grid,
        s.rewind().targets == s.targets,
        s.actions.len() == 0 ==> s.rewind() == s,
        s.actions.len() > 0 ==> s.rewind().actions == s.actions.drop_last(),
        s.actions.len() > 0 ==> s.rewind().step(heading(s.actions.last())) == s,
{
}

/// Winning and the two sets of coordinates. A position whose boxes cover
/// exactly the targets is won, and a won position has all its boxes among the
/// targets. With at least as many boxes as targets, a position is won exactly
/// when the set of box coordinates equals the set of target coordinates; with
/// no boxes and no targets that is trivially so.
pub proof fn win_is_set_equality(s: Board)
    requires
        s.placed(),
    ensures
        s.boxes.to_set() == s.targets.to_set() ==> s.won(),
        s.won() <==> s.boxes.to_set().subset_of(s.targets.to_set()),
        s.boxes.len() >= s.targets.len() ==> (s.won() <==> s.boxes.to_set()
            == s.targets.to_set()),
        s.boxes.len() == 0 && s.targets.len() == 0 ==> s.won(),
{
    let b = s.boxes.to_set();
    let t = s.targets.to_set();
    if b == t {
        assert forall|i: int| 0 <= i < s.boxes.len() implies s.targets.contains(
            #[trigger] s.boxes[i],
        ) by {
            assert(s.boxes.contains(s.boxes[i]));
            assert(b.contains(s.boxes[i]));
        }
    }
    if s.won() {
        assert forall|p: (int, int)| b.contains(p) implies t.contains(p) by {
            let i = choose|i: int| 0 <= i < s.boxes.len() && s.boxes[i] == p;
            assert(s.targets.contains(s.boxes[i]));
        }
    }
    if b.subset_of(t) {
        assert forall|i: int| 0 <= i < s.boxes.len() implies s.targets.contains(
            #[trigger] s.boxes[i],
        ) by {
            assert(s.boxes.contains(s.boxes[i]));
            assert(b.contains(s.boxes[i]));
        }
    }
    if s.won() && s.boxes.len() >= s.targets.len() {
        s.boxes.unique_seq_to_set();
        s.targets.unique_seq_to_set();
        vstd::seq_lib::seq_to_set_is_finite(s.boxes);
        vstd::seq_lib::seq_to_set_is_finite(s.targets);
        assert(b.subset_of(t));
        vstd::set_lib::lemma_len_subset(b, t);
        vstd::set_lib::lemma_subset_equality(b, t);
        assert(b == t);
    }
}

/// The cell of a box decides the game: in a placed position a box stands on a
/// target exactly when its grid cell is a target cell.
pub proof fn won_by_cells(s: Board)
    requires
        s.placed(),
    ensures
        s.won() <==> forall|i: int|
            0 <= i < s.boxes.len() ==> s.cell(#[trigger] s.boxes[i]) == Some(Entities::Target),
{
    if s.won() {
        assert forall|i: int| 0 <= i < s.boxes.len() implies s.cell(#[trigger] s.boxes[i])
            == Some(Entities::Target) by {
            assert(s.targets.contains(s.boxes[i]));
        }
    }
}

} // verus!
