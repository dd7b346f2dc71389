//! `InputEvent`: a player's input as the simulation sees it.
//!
//! Fixed-point coordinates are carried as their raw `i64` bits, the form in
//! which an input travels to the rollback buffer and over the network.
use vstd::prelude::*;

use crate::game::base::types::{Fixed, PlayerId};

verus! {

/// `Fixed` → raw bits, for serialisation.
pub fn fixed_to_bits(f: Fixed) -> (r: i64)
    ensures
        r == f.bits,
{
    f.to_bits()
}

/// Raw bits → `Fixed`, after deserialisation.
pub fn bits_to_fixed(b: i64) -> (r: Fixed)
    ensures
        r.bits == b,
{
    Fixed::from_bits(b)
}

/// One discrete input of a player in a tick.
#[derive(Debug, Clone, Copy, PartialEq, Eq, Structural)]
pub enum InputEvent {
    /// Click on the ground: move to (x, y), as `Fixed` bits.
    MoveGround { player_id: PlayerId, x_bits: i64, y_bits: i64 },
    /// Click on an enemy: move and attack.
    MoveAttack { player_id: PlayerId, target_entity: u64 },
    /// Stop moving.
    Stop { player_id: PlayerId },
    /// Attack-move (A + click).
    AttackMove { player_id: PlayerId, x_bits: i64, y_bits: i64 },
    /// Ability cast (slot 0=Q 1=W 2=E 3=R 4=D 5=F).
    Ability { player_id: PlayerId, slot: u8, x_bits: i64, y_bits: i64, target_id: Option<u64> },
    /// Item used (slot 0-5).
    Item { player_id: PlayerId, slot: u8 },
}

/// The player an input belongs to.
pub open spec fn player_of(e: InputEvent) -> PlayerId {
    match e {
        InputEvent::MoveGround { player_id, .. } => player_id,
        InputEvent::MoveAttack { player_id, .. } => player_id,
        InputEvent::Stop { player_id } => player_id,
        InputEvent::AttackMove { player_id, .. } => player_id,
        InputEvent::Ability { player_id, .. } => player_id,
        InputEvent::Item { player_id, .. } => player_id,
    }
}

/// The target point of a move, attack-move or ability.
pub open spec fn target_of(e: InputEvent) -> Option<(Fixed, Fixed)> {
    match e {
        InputEvent::MoveGround { x_bits, y_bits, .. } => Some(
            (Fixed { bits: x_bits }, Fixed { bits: y_bits }),
        ),
        InputEvent::AttackMove { x_bits, y_bits, .. } => Some(
            (Fixed { bits: x_bits }, Fixed { bits: y_bits }),
        ),
        InputEvent::Ability { x_bits, y_bits, .. } => Some(
            (Fixed { bits: x_bits }, Fixed { bits: y_bits }),
        ),
        _ => None,
    }
}

impl InputEvent {
    pub fn player_id(&self) -> (r: PlayerId)
        ensures
            r == player_of(*self),
    {
        match self {
            InputEvent::MoveGround { player_id, .. } => *player_id,
            InputEvent::MoveAttack { player_id, .. } => *player_id,
            InputEvent::Stop { player_id } => *player_id,
            InputEvent::AttackMove { player_id, .. } => *player_id,
            InputEvent::Ability { player_id, .. } => *player_id,
            InputEvent::Item { player_id, .. } => *player_id,
        }
    }

    /// A ground move built from `Fixed` coordinates.
    pub fn move_ground(player_id: PlayerId, x: Fixed, y: Fixed) -> (r: InputEvent)
        ensures
            r == (InputEvent::MoveGround { player_id, x_bits: x.bits, y_bits: y.bits }),
    {
        InputEvent::MoveGround { player_id, x_bits: fixed_to_bits(x), y_bits: fixed_to_bits(y) }
    }

    pub fn attack_move(player_id: PlayerId, x: Fixed, y: Fixed) -> (r: InputEvent)
        ensures
            r == (InputEvent::AttackMove { player_id, x_bits: x.bits, y_bits: y.bits }),
    {
        InputEvent::AttackMove { player_id, x_bits: fixed_to_bits(x), y_bits: fixed_to_bits(y) }
    }

    pub fn ability(player_id: PlayerId, slot: u8, x: Fixed, y: Fixed, target_id: Option<u64>) -> (r:
        InputEvent)
        ensures
            r == (InputEvent::Ability {
                player_id,
                slot,
                x_bits: x.bits,
                y_bits: y.bits,
                target_id,
            }),
    {
        InputEvent::Ability {
            player_id,
            slot,
            x_bits: fixed_to_bits(x),
            y_bits: fixed_to_bits(y),
            target_id,
        }
    }

    /// The `Fixed` coordinates of a move, attack-move or ability.
    pub fn target_pos(&self) -> (r: Option<(Fixed, Fixed)>)
        ensures
            r == target_of(*self),
    {
        match self {
            InputEvent::MoveGround { x_bits, y_bits, .. } => Some(
                (bits_to_fixed(*x_bits), bits_to_fixed(*y_bits)),
            ),
            InputEvent::AttackMove { x_bits, y_bits, .. } => Some(
                (bits_to_fixed(*x_bits), bits_to_fixed(*y_bits)),
            ),
            InputEvent::Ability { x_bits, y_bits, .. } => Some(
                (bits_to_fixed(*x_bits), bits_to_fixed(*y_bits)),
            ),
            _ => None,
        }
    }
}

} // verus!
