use vstd::prelude::*;

use crate::game_info::Action;

verus! {

/// Whether an AI's reply that starts with `code` goes on with a direction.
pub fn takes_direction(code: usize) -> (b: bool)
    ensures
        b == (code == 1),
{
    code == 1
}

/// The action an AI's reply asks for: `code` 1 moves in direction `move_id`, 2 picks up
/// a bomb, 3 drops one; any other code stays put. `move_id` counts only for code 1.
pub fn get_action(code: usize, move_id: usize) -> (a: Action)
    ensures
        code == 1 ==> a == Action::Move(move_id),
        code == 2 ==> a == Action::PickBom,
        code == 3 ==> a == Action::DropBom,
        (code != 1 && code != 2 && code != 3) ==> a == Action::Move(4),
{
    if code == 1 {
        Action::Move(move_id)
    } else if code == 2 {
        Action::PickBom
    } else if code == 3 {
        Action::DropBom
    } else {
        Action::Move(4)
    }
}

} // verus!
