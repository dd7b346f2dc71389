//! Messages exchanged between peers during a match, and room ids.
//!
//! Turning a message into bytes and back is done by the application, which
//! holds the serialisable twin of these types.
use vstd::prelude::*;

use vstd::string::StringSliceAdditionalSpecFns;

use crate::net::instant::{duration_subsec_nanos, since_epoch, system_now};

verus! {

/// Room id: 32 bytes drawn by the host.
#[derive(Debug, Clone, Copy, PartialEq, Eq, Hash)]
pub struct RoomId(pub [u8; 32]);

/// Lower-case hexadecimal digit of a value below 16.
pub open spec fn hex_digit(v: int) -> u8 {
    if v < 10 {
        (48 + v) as u8
    } else {
        (87 + v) as u8
    }
}

/// Two lower-case hex digits per byte, high nibble first.
pub open spec fn hex_text(b: Seq<u8>) -> Seq<u8> {
    Seq::new(
        2 * b.len(),
        |i: int|
            if i % 2 == 0 {
                hex_digit((b[i / 2] / 16) as int)
            } else {
                hex_digit((b[i / 2] % 16) as int)
            },
    )
}

/// Value of a hexadecimal digit, either case.
pub open spec fn nibble(c: u8) -> Option<u8> {
    if 48 <= c <= 57 {
        Some((c - 48) as u8)
    } else if 97 <= c <= 102 {
        Some((c - 87) as u8)
    } else if 65 <= c <= 70 {
        Some((c - 55) as u8)
    } else {
        None
    }
}

/// The 32 bytes written by 64 hex digits; none for any other text.
pub open spec fn hex_decode(t: Seq<u8>) -> Option<Seq<u8>> {
    if t.len() == 64 && forall|i: int| 0 <= i < 64 ==> #[trigger] nibble(t[i]) is Some {
        Some(Seq::new(32, |i: int| (nibble(t[2 * i])->0 * 16 + nibble(t[2 * i + 1])->0) as u8))
    } else {
        None
    }
}

/// Bytes as characters, for ASCII text.
pub open spec fn ascii_chars(b: Seq<u8>) -> Seq<char> {
    b.map_values(|c: u8| c as char)
}

/// `String::from_utf8`: the text of the given bytes. They are ASCII here,
/// so the text has one character per byte.
#[verifier::external_body]
pub(crate) fn ascii_string(bytes: Vec<u8>) -> (r: String)
    requires
        forall|i: int| 0 <= i < bytes@.len() ==> bytes@[i] < 128,
    ensures
        r@ == ascii_chars(bytes@),
{
    String::from_utf8(bytes).unwrap_or_default()
}

fn hex_nibble(b: u8) -> (r: Option<u8>)
    ensures
        r == nibble(b),
{
    if b >= 48 && b <= 57 {
        Some(b - 48)
    } else if b >= 97 && b <= 102 {
        Some(b - 87)
    } else if b >= 65 && b <= 70 {
        Some(b - 55)
    } else {
        None
    }
}

/// The hex text of a room id, as bytes.
pub(crate) fn hex_bytes(id: &RoomId) -> (r: Vec<u8>)
    ensures
        r@ == hex_text(id.0@),
        forall|i: int| 0 <= i < r@.len() ==> r@[i] < 128,
{
    let mut out: Vec<u8> = Vec::new();
    let mut i: usize = 0;
    while i < 32
        invariant
            i <= 32,
            out@ =~= hex_text(id.0@).subrange(0, 2 * i),
            forall|k: int| 0 <= k < out@.len() ==> out@[k] < 128,
        decreases 32 - i,
    {
        let b = id.0[i];
        let hi = b / 16;
        let lo = b % 16;
        out.push(if hi < 10 { 48 + hi } else { 87 + hi });
        out.push(if lo < 10 { 48 + lo } else { 87 + lo });
        i = i + 1;
        proof {
            assert(out@ =~= hex_text(id.0@).subrange(0, 2 * i));
        }
    }
    out
}

impl RoomId {
    /// A room id from the clock: each byte is the low byte of the
    /// sub-second nanoseconds read at that moment. Not cryptographic.
    pub fn random() -> RoomId {
        let mut bytes = [0u8; 32];
        let mut i: usize = 0;
        while i < 32
            invariant
                i <= 32,
            decreases 32 - i,
        {
            let nanos = duration_subsec_nanos(&since_epoch(&system_now()));
            bytes.set(i, (nanos % 256) as u8);
            i = i + 1;
        }
        RoomId(bytes)
    }

    /// 64 lower-case hex digits.
    pub fn to_hex(&self) -> (r: String)
        ensures
            r@ == ascii_chars(hex_text(self.0@)),
    {
        ascii_string(hex_bytes(self))
    }

    /// The room id written by 64 hex digits (either case); `None` for any
    /// other text.
    pub fn from_hex(s: &str) -> (r: Option<RoomId>)
        ensures
            r is Some <==> hex_decode(s.spec_bytes()) is Some,
            r matches Some(id) ==> hex_decode(s.spec_bytes()) == Some(id.0@),
    {
        let t = s.as_bytes();
        if t.len() != 64 {
            return None;
        }
        let mut bytes = [0u8; 32];
        let mut i: usize = 0;
        while i < 32
            invariant
                i <= 32,
                t@ == s.spec_bytes(),
                t@.len() == 64,
                forall|k: int| 0 <= k < 2 * i ==> #[trigger] nibble(t@[k]) is Some,
                forall|k: int|
                    0 <= k < i ==> bytes@[k] == (nibble(t@[2 * k])->0 * 16 + nibble(
                        t@[2 * k + 1],
                    )->0) as u8,
            decreases 32 - i,
        {
            let hi = match hex_nibble(t[2 * i]) {
                Some(v) => v,
                None => {
                    assert(!(nibble(t@[2 * i as int]) is Some));
                    return None;
                },
            };
            let lo = match hex_nibble(t[2 * i + 1]) {
                Some(v) => v,
                None => {
                    assert(!(nibble(t@[2 * i + 1]) is Some));
                    return None;
                },
            };
            proof {
                assert((hi << 4u8) | lo == hi * 16 + lo) by (bit_vector)
                    requires
                        hi < 16,
                        lo < 16,
                ;
            }
            bytes.set(i, (hi << 4) | lo);
            i = i + 1;
        }
        proof {
            assert(bytes@ =~= hex_decode(t@)->0);
        }
        Some(RoomId(bytes))
    }
}

/// Reading back the hex text of 32 bytes gives the bytes.
pub proof fn law_hex_roundtrip(b: Seq<u8>)
    requires
        b.len() == 32,
    ensures
        hex_decode(hex_text(b)) == Some(b),
{
    let t = hex_text(b);
    assert forall|i: int| 0 <= i < 64 implies #[trigger] nibble(t[i]) is Some by {}
    let d = hex_decode(t)->0;
    assert forall|i: int| 0 <= i < 32 implies d[i] == b[i] by {
        assert(t[2 * i] == hex_digit((b[i] / 16) as int));
        assert(t[2 * i + 1] == hex_digit((b[i] % 16) as int));
    }
    assert(d =~= b);
}

/// What a player can do in a MOBA.
#[derive(Debug, Clone, Copy, PartialEq, Eq, Structural)]
pub enum InputKind {
    MoveGround,
    MoveAttack,
    Stop,
    AttackMove,
    /// 0=Q 1=W 2=E 3=R 4=D 5=F (summoners).
    Ability(u8),
    /// Slot 0-5.
    Item(u8),
}

/// Every message that travels between peers during a match.
#[derive(Debug, Clone)]
pub enum NetMessage {
    /// First packet on connecting: who the peer is and which room.
    Hello { room_id: RoomId, player_id: u8, version: u32 },
    /// Handshake answer: the player id assigned and the match's seed.
    Welcome { player_id: u8, rng_seed: u64, tick_start: u32 },
    /// A player's input for a tick.
    Input { tick: u32, player_id: u8, kind: InputKind, target_x: i32, target_y: i32, target_id: u16 },
    /// State hash every 60 ticks, to detect divergence.
    StateChecksum { tick: u32, hash: u64 },
    /// Full state snapshot, for resync after a divergence.
    StateSnapshot { tick: u32, data: Vec<u8> },
    PingTime { t1_us: u64 },
    PongTime { t1_us: u64, t2_us: u64, t3_us: u64 },
    /// Heartbeat at 20 Hz, for disconnect detection.
    Heartbeat { tick: u32 },
    /// The coordinator announces the election result.
    CoordinatorElected { peer_id: u8, shadow_id: u8, token: u32 },
    /// The shadow takes over after the coordinator failed.
    Takeover { from_tick: u32, state_hash: u64, token: u32 },
}

/// Messages sent reliably: handshake, inputs, snapshots and coordination.
pub open spec fn reliable_message(m: NetMessage) -> bool {
    m is Hello || m is Welcome || m is Input || m is StateSnapshot || m is CoordinatorElected
        || m is Takeover
}

impl NetMessage {
    /// True when the message must be sent as reliable.
    pub fn is_reliable(&self) -> (r: bool)
        ensures
            r == reliable_message(*self),
    {
        match self {
            NetMessage::Hello { .. } => true,
            NetMessage::Welcome { .. } => true,
            NetMessage::Input { .. } => true,
            NetMessage::StateSnapshot { .. } => true,
            NetMessage::CoordinatorElected { .. } => true,
            NetMessage::Takeover { .. } => true,
            _ => false,
        }
    }
}

} // verus!
