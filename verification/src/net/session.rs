//! Decisions of the network session. The session loop (socket, peers,
//! heartbeats) runs in the application; at each step it asks these
//! functions what to do.
use vstd::prelude::*;

use crate::net::election::{ElectionResult, validate_takeover};
use crate::net::peer::PeerStatus;
use crate::net::protocol::{InputKind, NetMessage, RoomId};

verus! {

/// Phase of the network session.
#[derive(Debug, Clone, Copy, PartialEq, Eq, Structural)]
pub enum SessionPhase {
    /// Waiting for peers to connect.
    WaitingPeers,
    /// Ping mesh, election and clock sync.
    Setup,
    /// Match in progress.
    Playing,
    /// Session over (disconnect or end of match).
    Ended,
}

/// Ticks between two checksum broadcasts.
pub const CHECKSUM_INTERVAL: u64 = 60;

/// Protocol version announced in `Hello`.
pub const PROTOCOL_VERSION: u32 = 1;

/// What to do with a message received from a peer.
#[derive(Debug, Clone, Copy, PartialEq, Eq, Structural)]
pub enum InboundAction {
    /// Hand the input (the whole payload) to the game and to rollback.
    DeliverInput { player_id: u8, tick: u64 },
    /// Compare the peer's state hash with ours.
    CompareChecksum { tick: u32, hash: u64 },
    /// Answer a clock ping.
    AnswerPing { t1_us: u64 },
    /// A takeover that does not come from the elected shadow: warn.
    RejectTakeover,
    /// Nothing to do (a heartbeat only refreshes the peer, done on receipt).
    Ignore,
}

/// The action for an inbound message, given the current election.
pub fn inbound_action(msg: &NetMessage, election: &Option<ElectionResult>) -> (r: InboundAction)
    ensures
        r == match *msg {
            NetMessage::Input { tick, player_id, .. } => InboundAction::DeliverInput {
                player_id,
                tick: tick as u64,
            },
            NetMessage::StateChecksum { tick, hash } => InboundAction::CompareChecksum { tick, hash },
            NetMessage::PingTime { t1_us } => InboundAction::AnswerPing { t1_us },
            NetMessage::Takeover { token, .. } => match *election {
                Some(el) => if !(0 == el.shadow_id && token == el.token) {
                    InboundAction::RejectTakeover
                } else {
                    InboundAction::Ignore
                },
                None => InboundAction::Ignore,
            },
            _ => InboundAction::Ignore,
        },
{
    match msg {
        NetMessage::Input { tick, player_id, .. } => InboundAction::DeliverInput {
            player_id: *player_id,
            tick: *tick as u64,
        },
        NetMessage::StateChecksum { tick, hash } => InboundAction::CompareChecksum {
            tick: *tick,
            hash: *hash,
        },
        NetMessage::PingTime { t1_us } => InboundAction::AnswerPing { t1_us: *t1_us },
        NetMessage::Takeover { token, .. } => match election {
            Some(el) => if !validate_takeover(el, 0, *token) {
                InboundAction::RejectTakeover
            } else {
                InboundAction::Ignore
            },
            None => InboundAction::Ignore,
        },
        _ => InboundAction::Ignore,
    }
}

/// Whether a checksum broadcast is due at `tick` (every 60 ticks). The sum
/// overflows when the last broadcast tick is within 60 of the maximum.
pub fn checksum_due(tick: u64, last_checksum_tick: u64) -> (r: bool)
    requires
        last_checksum_tick + CHECKSUM_INTERVAL <= u64::MAX,
    ensures
        r == (tick >= last_checksum_tick + 60),
{
    tick >= last_checksum_tick + CHECKSUM_INTERVAL
}

/// A peer's checksum reveals a divergence when we have reached its tick and
/// our hash differs.
pub fn diverged(current_tick: u64, tick: u32, local_hash: u64, remote_hash: u64) -> (r: bool)
    ensures
        r == (current_tick >= tick as u64 && local_hash != remote_hash),
{
    current_tick >= tick as u64 && local_hash != remote_hash
}

/// First tick of the match announced in `Welcome`: about a second after
/// the current tick. The sum overflows near the top of the `u32` range.
pub fn welcome_tick_start(current_tick: u64) -> (r: u32)
    requires
        (current_tick as u32) + 60 <= u32::MAX,
    ensures
        r == (current_tick as u32) + 60,
{
    current_tick as u32 + 60
}

/// The `Hello` a peer sends on setup.
pub fn hello_message(room_id: RoomId, local_id: u8) -> (r: NetMessage)
    ensures
        r matches NetMessage::Hello { room_id: id, player_id, version } && id == room_id
            && player_id == local_id && version == PROTOCOL_VERSION,
{
    NetMessage::Hello { room_id, player_id: local_id, version: PROTOCOL_VERSION }
}

/// The `Input` message announcing a local input (the game decodes the
/// details from the input's bytes).
pub fn input_message(tick: u64, player_id: u8) -> (r: NetMessage)
    ensures
        r == (NetMessage::Input {
            tick: tick as u32,
            player_id,
            kind: InputKind::Stop,
            target_x: 0,
            target_y: 0,
            target_id: 0,
        }),
{
    NetMessage::Input {
        tick: tick as u32,
        player_id,
        kind: InputKind::Stop,
        target_x: 0,
        target_y: 0,
        target_id: 0,
    }
}

pub open spec fn connected_count(s: Seq<PeerStatus>) -> nat
    decreases s.len(),
{
    if s.len() == 0 {
        0
    } else {
        connected_count(s.drop_last()) + if s.last() == PeerStatus::Connected {
            1nat
        } else {
            0nat
        }
    }
}

/// Number of connected peers.
pub fn count_connected(statuses: &[PeerStatus]) -> (r: usize)
    ensures
        r == connected_count(statuses@),
{
    let mut n: usize = 0;
    let mut i: usize = 0;
    while i < statuses.len()
        invariant
            i <= statuses@.len(),
            n == connected_count(statuses@.subrange(0, i as int)),
            n <= i,
        decreases statuses@.len() - i,
    {
        proof {
            assert(statuses@.subrange(0, i + 1).drop_last() =~= statuses@.subrange(0, i as int));
        }
        if statuses[i] == PeerStatus::Connected {
            n = n + 1;
        }
        i = i + 1;
    }
    proof {
        assert(statuses@.subrange(0, statuses@.len() as int) =~= statuses@);
    }
    n
}

/// Whether a peer id is already registered.
pub fn has_peer(ids: &[u8], id: u8) -> (r: bool)
    ensures
        r == (exists|k: int| 0 <= k < ids@.len() && ids@[k] == id),
{
    let mut i: usize = 0;
    while i < ids.len()
        invariant
            i <= ids@.len(),
            forall|k: int| 0 <= k < i ==> ids@[k] != id,
        decreases ids@.len() - i,
    {
        if ids[i] == id {
            return true;
        }
        i = i + 1;
    }
    false
}

} // verus!
