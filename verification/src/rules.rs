use vstd::prelude::*;
use crate::region::{
    component, has_liberty, lemma_component_inside, lemma_component_whole,
    lemma_remove_whole_groups, lemma_seed_in_component, on_board, whole_groups,
};

verus! {

/// Whether the attacker finds no liberty on the defender's group at
/// `(x, y)`. The group of an intersection without a stone of the defender
/// is empty and has none.
pub open spec fn smothered(
    defender: Set<(int, int)>,
    attacker: Set<(int, int)>,
    x: int,
    y: int,
) -> bool {
    on_board(x, y) && !has_liberty(component(defender, (x, y)), attacker)
}

/// The defender's stones after the attacker has tried the group at
/// `(x, y)`: without that group if it has no liberty, unchanged if it has
/// one or `(x, y)` is off the board.
pub open spec fn capture_at(
    defender: Set<(int, int)>,
    attacker: Set<(int, int)>,
    x: int,
    y: int,
) -> Set<(int, int)> {
    if smothered(defender, attacker, x, y) {
        defender.difference(component(defender, (x, y)))
    } else {
        defender
    }
}

/// The defender's stones after the attacker has tried the four neighbours
/// of `(x, y)` in turn: left, right, the row before, the row after.
pub open spec fn after_captures(
    defender: Set<(int, int)>,
    attacker: Set<(int, int)>,
    x: int,
    y: int,
) -> Set<(int, int)> {
    let first = capture_at(defender, attacker, x - 1, y);
    let second = capture_at(first, attacker, x + 1, y);
    let third = capture_at(second, attacker, x, y - 1);
    capture_at(third, attacker, x, y + 1)
}

/// Whether one of the four tries around `(x, y)` finds no liberty.
pub open spec fn any_smothered(
    defender: Set<(int, int)>,
    attacker: Set<(int, int)>,
    x: int,
    y: int,
) -> bool {
    let first = capture_at(defender, attacker, x - 1, y);
    let second = capture_at(first, attacker, x + 1, y);
    let third = capture_at(second, attacker, x, y - 1);
    ||| smothered(defender, attacker, x - 1, y)
    ||| smothered(first, attacker, x + 1, y)
    ||| smothered(second, attacker, x, y - 1)
    ||| smothered(third, attacker, x, y + 1)
}

/// Whether each of the four neighbours of `(x, y)` is off the board or
/// holds a stone of `opponent`.
pub open spec fn hemmed(opponent: Set<(int, int)>, x: int, y: int) -> bool {
    &&& x == 0 || opponent.contains((x - 1, y))
    &&& x == 18 || opponent.contains((x + 1, y))
    &&& y == 0 || opponent.contains((x, y - 1))
    &&& y == 18 || opponent.contains((x, y + 1))
}

/// A try takes stones away only, and takes the stone it is aimed at
/// whenever it finds no liberty.
pub proof fn lemma_capture_at(defender: Set<(int, int)>, attacker: Set<(int, int)>, x: int, y: int)
    ensures
        capture_at(defender, attacker, x, y).subset_of(defender),
        smothered(defender, attacker, x, y) && defender.contains((x, y)) ==> !capture_at(
            defender,
            attacker,
            x,
            y,
        ).contains((x, y)),
{
    lemma_component_inside(defender, (x, y));
    if defender.contains((x, y)) {
        lemma_seed_in_component(defender, (x, y));
    }
}

/// Where no try finds a group without a liberty, every stone stays. Where
/// the four neighbours on the board all hold stones of the defender, a
/// try that finds none takes a stone.
pub proof fn lemma_captures_change(
    defender: Set<(int, int)>,
    attacker: Set<(int, int)>,
    x: int,
    y: int,
)
    requires
        on_board(x, y),
    ensures
        after_captures(defender, attacker, x, y).subset_of(defender),
        !any_smothered(defender, attacker, x, y) ==> after_captures(defender, attacker, x, y)
            == defender,
        hemmed(defender, x, y) && any_smothered(defender, attacker, x, y) ==> after_captures(
            defender,
            attacker,
            x,
            y,
        ) != defender,
{
    let first = capture_at(defender, attacker, x - 1, y);
    let second = capture_at(first, attacker, x + 1, y);
    let third = capture_at(second, attacker, x, y - 1);
    let fourth = capture_at(third, attacker, x, y + 1);
    lemma_capture_at(defender, attacker, x - 1, y);
    lemma_capture_at(first, attacker, x + 1, y);
    lemma_capture_at(second, attacker, x, y - 1);
    lemma_capture_at(third, attacker, x, y + 1);
    if hemmed(defender, x, y) && any_smothered(defender, attacker, x, y) {
        if smothered(defender, attacker, x - 1, y) {
            assert(defender.contains((x - 1, y)) && !fourth.contains((x - 1, y)));
        } else if smothered(first, attacker, x + 1, y) {
            assert(defender.contains((x + 1, y)) && !fourth.contains((x + 1, y)));
        } else if smothered(second, attacker, x, y - 1) {
            assert(defender.contains((x, y - 1)) && !fourth.contains((x, y - 1)));
        } else {
            assert(defender.contains((x, y + 1)) && !fourth.contains((x, y + 1)));
        }
    }
}

/// The group that a try at `(x, y)` takes: the defender's group there if
/// it has no liberty, and nothing otherwise.
pub open spec fn dead_group(
    defender: Set<(int, int)>,
    attacker: Set<(int, int)>,
    x: int,
    y: int,
) -> Set<(int, int)> {
    if smothered(defender, attacker, x, y) {
        component(defender, (x, y))
    } else {
        Set::empty()
    }
}

/// The groups without a liberty at the four neighbours of `(x, y)`, each
/// judged on the board as it stands before any of them is taken.
pub open spec fn dead_around(
    defender: Set<(int, int)>,
    attacker: Set<(int, int)>,
    x: int,
    y: int,
) -> Set<(int, int)> {
    dead_group(defender, attacker, x - 1, y).union(dead_group(defender, attacker, x + 1, y)).union(
        dead_group(defender, attacker, x, y - 1),
    ).union(dead_group(defender, attacker, x, y + 1))
}

/// A try on a board from which whole groups are gone takes what it would
/// have taken before they went.
proof fn lemma_capture_step(
    defender: Set<(int, int)>,
    attacker: Set<(int, int)>,
    gone: Set<(int, int)>,
    x: int,
    y: int,
)
    requires
        whole_groups(defender, gone),
    ensures
        capture_at(defender.difference(gone), attacker, x, y) == defender.difference(
            gone.union(dead_group(defender, attacker, x, y)),
        ),
        whole_groups(defender, gone.union(dead_group(defender, attacker, x, y))),
{
    let rest = defender.difference(gone);
    let dead = dead_group(defender, attacker, x, y);
    lemma_remove_whole_groups(defender, gone, (x, y));
    lemma_component_whole(defender, (x, y));
    if gone.contains((x, y)) {
        assert(component(defender, (x, y)).subset_of(gone));
        assert(component(rest, (x, y)) == Set::<(int, int)>::empty());
    }
    assert(capture_at(rest, attacker, x, y) =~= defender.difference(gone.union(dead)));
    assert forall|p: (int, int)| gone.union(dead).contains(p) implies #[trigger] component(
        defender,
        p,
    ).subset_of(gone.union(dead)) by {
        if gone.contains(p) {
            assert(component(defender, p).subset_of(gone));
        } else {
            assert(component(defender, p).subset_of(dead));
        }
    }
}

/// The order of the four tries does not matter: together they take the
/// groups that have no liberty before any of them is taken, and no other
/// stone.
pub proof fn lemma_captures_by_group(
    defender: Set<(int, int)>,
    attacker: Set<(int, int)>,
    x: int,
    y: int,
)
    ensures
        after_captures(defender, attacker, x, y) == defender.difference(
            dead_around(defender, attacker, x, y),
        ),
{
    let none = Set::<(int, int)>::empty();
    let one = none.union(dead_group(defender, attacker, x - 1, y));
    let two = one.union(dead_group(defender, attacker, x + 1, y));
    let three = two.union(dead_group(defender, attacker, x, y - 1));
    let four = three.union(dead_group(defender, attacker, x, y + 1));
    assert(defender.difference(none) =~= defender);
    lemma_capture_step(defender, attacker, none, x - 1, y);
    lemma_capture_step(defender, attacker, one, x + 1, y);
    lemma_capture_step(defender, attacker, two, x, y - 1);
    lemma_capture_step(defender, attacker, three, x, y + 1);
    assert(four =~= dead_around(defender, attacker, x, y));
}

/// A group at a neighbour of `(x, y)` that has no liberty leaves the board
/// with all its stones.
pub proof fn lemma_capture_complete(
    defender: Set<(int, int)>,
    attacker: Set<(int, int)>,
    x: int,
    y: int,
    seed: (int, int),
    stone: (int, int),
)
    requires
        seed == (x - 1, y) || seed == (x + 1, y) || seed == (x, y - 1) || seed == (x, y + 1),
        smothered(defender, attacker, seed.0, seed.1),
        component(defender, seed).contains(stone),
    ensures
        !after_captures(defender, attacker, x, y).contains(stone),
{
    lemma_captures_by_group(defender, attacker, x, y);
    assert(dead_group(defender, attacker, seed.0, seed.1).contains(stone));
}

/// A stone of a group that has a liberty, or of a group that is at none
/// of the four neighbours of `(x, y)`, stays on the board.
pub proof fn lemma_capture_spares(
    defender: Set<(int, int)>,
    attacker: Set<(int, int)>,
    x: int,
    y: int,
    stone: (int, int),
)
    requires
        defender.contains(stone),
        !dead_around(defender, attacker, x, y).contains(stone),
    ensures
        after_captures(defender, attacker, x, y).contains(stone),
{
    lemma_captures_by_group(defender, attacker, x, y);
}

} // verus!
