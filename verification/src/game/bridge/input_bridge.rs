//! Inputs of the engine front end turned into simulation inputs. Pure
//! conversion at the boundary, no game logic.
use vstd::prelude::*;

use crate::game::base::types::PlayerId;
use crate::game::input::events::InputEvent;

verus! {

/// Click on an enemy entity → `MoveAttack`.
pub fn on_entity_click(player_id: u8, entity_id: u64) -> (r: InputEvent)
    ensures
        r == (InputEvent::MoveAttack { player_id: PlayerId(player_id), target_entity: entity_id }),
{
    InputEvent::MoveAttack { player_id: PlayerId(player_id), target_entity: entity_id }
}

/// Stop key → `Stop`.
pub fn on_stop_key(player_id: u8) -> (r: InputEvent)
    ensures
        r == (InputEvent::Stop { player_id: PlayerId(player_id) }),
{
    InputEvent::Stop { player_id: PlayerId(player_id) }
}

} // verus!
