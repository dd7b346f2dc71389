//! Packet framing for the UDP transport: a 7-byte header in front of every
//! payload, carrying the sequence, the selective ACK and the packet kind.
//! The socket itself lives with the application.
use vstd::prelude::*;

use crate::net::ack::{
    PeerAckState, acked_by, due_entries, recv_update, release_all, restamped, seq_delta,
    stamps_kept, target_slot,
};

verus! {

pub const HEADER_SIZE: usize = 7;

pub const MAX_PACKET_SIZE: usize = 1200;

/// Kind of packet, in the high 4 bits of the type byte.
#[derive(Debug, Clone, Copy, PartialEq, Eq, Structural)]
pub enum PacketKind {
    Unreliable,
    Reliable,
}

/// The type byte of a kind.
pub open spec fn kind_byte(k: PacketKind) -> u8 {
    match k {
        PacketKind::Unreliable => 0x00,
        PacketKind::Reliable => 0x10,
    }
}

/// Header prefixed to every UDP packet.
#[derive(Debug, Clone, Copy, PartialEq, Eq, Structural)]
pub struct PacketHeader {
    pub sequence: u8,
    pub ack: u8,
    pub ack_bits: u32,
    pub kind: PacketKind,
}

/// The 7 header bytes: sequence, ack, the ACK bits little-endian, kind.
pub open spec fn header_bytes(h: PacketHeader) -> Seq<u8> {
    seq![
        h.sequence,
        h.ack,
        (h.ack_bits % 256) as u8,
        ((h.ack_bits / 256) % 256) as u8,
        ((h.ack_bits / 65536) % 256) as u8,
        (h.ack_bits / 16777216) as u8,
        kind_byte(h.kind),
    ]
}

/// The header read from the first bytes of a packet: none when fewer than
/// 7 bytes or an unknown kind in the high nibble of the type byte.
pub open spec fn parse_header(b: Seq<u8>) -> Option<PacketHeader> {
    if b.len() < 7 {
        None
    } else {
        let hi = b[6] & 0xF0u8;
        if hi != 0x00 && hi != 0x10 {
            None
        } else {
            Some(
                PacketHeader {
                    sequence: b[0],
                    ack: b[1],
                    ack_bits: (b[2] + 256 * b[3] + 65536 * b[4] + 16777216 * b[5]) as u32,
                    kind: if hi == 0x10 {
                        PacketKind::Reliable
                    } else {
                        PacketKind::Unreliable
                    },
                },
            )
        }
    }
}

impl PacketHeader {
    pub fn encode(&self, buf: &mut [u8; 7])
        ensures
            final(buf)@ == header_bytes(*self),
    {
        buf.set(0, self.sequence);
        buf.set(1, self.ack);
        buf.set(2, (self.ack_bits % 256) as u8);
        buf.set(3, ((self.ack_bits / 256) % 256) as u8);
        buf.set(4, ((self.ack_bits / 65536) % 256) as u8);
        buf.set(5, (self.ack_bits / 16777216) as u8);
        let k: u8 = match self.kind {
            PacketKind::Unreliable => 0x00,
            PacketKind::Reliable => 0x10,
        };
        buf.set(6, k);
        assert(buf@ =~= header_bytes(*self));
    }

    pub fn decode(buf: &[u8]) -> (r: Option<PacketHeader>)
        ensures
            r == parse_header(buf@),
    {
        if buf.len() < HEADER_SIZE {
            return None;
        }
        let hi = buf[6] & 0xF0;
        let kind = if hi == 0x00 {
            PacketKind::Unreliable
        } else if hi == 0x10 {
            PacketKind::Reliable
        } else {
            return None;
        };
        let bits: u32 = buf[2] as u32 + 256 * buf[3] as u32 + 65536 * buf[4] as u32 + 16777216
            * buf[5] as u32;
        Some(PacketHeader { sequence: buf[0], ack: buf[1], ack_bits: bits, kind })
    }
}

/// Reading back an encoded header gives the header.
pub proof fn law_header_roundtrip(h: PacketHeader)
    ensures
        parse_header(header_bytes(h)) == Some(h),
{
    let b = header_bytes(h);
    let x = h.ack_bits;
    assert(0x00u8 & 0xF0u8 == 0x00u8) by (bit_vector);
    assert(0x10u8 & 0xF0u8 == 0x10u8) by (bit_vector);
    assert(b[2] + 256 * b[3] + 65536 * b[4] + 16777216 * b[5] == x) by {
        assert(x % 256 + 256 * ((x / 256) % 256) + 65536 * ((x / 65536) % 256) + 16777216 * (x
            / 16777216) == x) by (nonlinear_arith)
            requires
                0 <= x < 0x1_0000_0000,
        ;
    }
}

/// Header bytes followed by the payload.
pub fn frame_packet(header: &PacketHeader, payload: &[u8]) -> (r: Vec<u8>)
    ensures
        r@ == header_bytes(*header) + payload@,
{
    let mut hdr_buf = [0u8; 7];
    header.encode(&mut hdr_buf);
    let mut packet: Vec<u8> = Vec::new();
    let mut i: usize = 0;
    while i < 7
        invariant
            i <= 7,
            hdr_buf@ == header_bytes(*header),
            packet@ == hdr_buf@.subrange(0, i as int),
        decreases 7 - i,
    {
        packet.push(hdr_buf[i]);
        i = i + 1;
    }
    let mut j: usize = 0;
    while j < payload.len()
        invariant
            j <= payload@.len(),
            hdr_buf@ == header_bytes(*header),
            packet@ == header_bytes(*header) + payload@.subrange(0, j as int),
        decreases payload@.len() - j,
    {
        packet.push(payload[j]);
        j = j + 1;
        proof {
            assert(packet@ =~= header_bytes(*header) + payload@.subrange(0, j as int));
        }
    }
    proof {
        assert(hdr_buf@.subrange(0, 7) =~= hdr_buf@);
        assert(payload@.subrange(0, payload@.len() as int) =~= payload@);
    }
    packet
}

/// A packet to send to a peer: allocates its sequence (keeping it for
/// resending when reliable) and frames it with the current ACK fields.
pub fn prepare_send(state: &mut PeerAckState, payload: &[u8], reliable: bool) -> (r: Vec<u8>)
    requires
        old(state).wf(),
    ensures
        final(state).wf(),
        final(state).next_seq() == (old(state).next_seq() + 1) % 256,
        final(state).last_recv() == old(state).last_recv(),
        final(state).any_received() == old(state).any_received(),
        final(state).history() == old(state).history(),
        reliable ==> {
            let t = target_slot(old(state).slots(), old(state).stamps());
            &&& 0 <= t < 64
            &&& final(state).slots() == old(state).slots().update(
                t,
                Some((old(state).next_seq(), payload@)),
            )
            &&& final(state).stamps() == old(state).stamps().update(t, old(state).stamp_counter())
        },
        !reliable ==> final(state).slots() == old(state).slots() && final(state).stamps() == old(
            state,
        ).stamps(),
        r@ == header_bytes(
            PacketHeader {
                sequence: old(state).next_seq(),
                ack: old(state).last_recv(),
                ack_bits: old(state).history(),
                kind: if reliable {
                    PacketKind::Reliable
                } else {
                    PacketKind::Unreliable
                },
            },
        ) + payload@,
{
    let seq = state.on_send(reliable, payload);
    let (ack, ack_bits) = state.header_ack_fields();
    let kind = if reliable {
        PacketKind::Reliable
    } else {
        PacketKind::Unreliable
    };
    let header = PacketHeader { sequence: seq, ack, ack_bits, kind };
    frame_packet(&header, payload)
}

/// Whether receiving this header is within what the ACK state handles (a
/// sequence at most 32 ahead and not exactly 128 away).
pub open spec fn acceptable(state: PeerAckState, h: PacketHeader) -> bool {
    state.any_received() ==> seq_delta(h.sequence, state.last_recv()) <= 32 && seq_delta(
        h.sequence,
        state.last_recv(),
    ) != -128
}

/// Whether the ACK state can take a packet with this header: anything
/// before the first packet, afterwards a sequence at most 32 ahead of the
/// last one received and not exactly 128 away.
pub fn in_window(state: &PeerAckState, h: &PacketHeader) -> (r: bool)
    ensures
        r == acceptable(*state, *h),
{
    if !state.has_received() {
        return true;
    }
    let (last, _) = state.header_ack_fields();
    let w: u8 = h.sequence.wrapping_sub(last);
    let delta: i16 = if w >= 128 {
        w as i16 - 256
    } else {
        w as i16
    };
    assert(delta == seq_delta(h.sequence, last));
    delta <= 32 && delta != -128
}

/// A received datagram: its header and payload, once the ACK state has
/// recorded the sequence and released what the peer acknowledges. A
/// datagram without a valid header is dropped.
pub fn accept_packet(state: &mut PeerAckState, buf: &[u8]) -> (r: Option<(PacketHeader, Vec<u8>)>)
    requires
        old(state).wf(),
        parse_header(buf@) matches Some(h) ==> acceptable(*old(state), h),
    ensures
        final(state).wf(),
        final(state).next_seq() == old(state).next_seq(),
        match parse_header(buf@) {
            None => r is None && *final(state) == *old(state),
            Some(h) => {
                &&& r matches Some(p) && p.0 == h && p.1@ == buf@.subrange(7, buf@.len() as int)
                &&& (final(state).last_recv(), final(state).history()) == recv_update(
                    old(state).last_recv(),
                    old(state).history(),
                    old(state).any_received(),
                    h.sequence,
                )
                &&& final(state).slots() == release_all(old(state).slots(), acked_by(h.ack, h.ack_bits, 32))
                &&& stamps_kept(old(state).stamps(), final(state).slots(), final(state).stamps())
                &&& final(state).any_received()
            },
        },
{
    let header = match PacketHeader::decode(buf) {
        Some(h) => h,
        None => {
            return None;
        },
    };
    let mut payload: Vec<u8> = Vec::new();
    let mut i: usize = HEADER_SIZE;
    while i < buf.len()
        invariant
            7 <= i <= buf@.len(),
            payload@ == buf@.subrange(7, i as int),
        decreases buf@.len() - i,
    {
        payload.push(buf[i]);
        i = i + 1;
        proof {
            assert(payload@ =~= buf@.subrange(7, i as int));
        }
    }
    state.on_recv(header.sequence);
    state.process_remote_ack(header.ack, header.ack_bits);
    Some((header, payload))
}

/// A pending reliable packet framed again with the given ACK fields.
pub open spec fn reframed(e: (u8, Seq<u8>), ack: u8, ack_bits: u32) -> Seq<u8> {
    header_bytes(PacketHeader { sequence: e.0, ack, ack_bits, kind: PacketKind::Reliable }) + e.1
}

/// The packets to resend to a peer: each reliable packet pending for the
/// retry interval (which ones depends on the clock), in slot order, framed
/// again with its own sequence and the current ACK fields.
pub fn resend_packets(state: &mut PeerAckState) -> (r: Vec<Vec<u8>>)
    requires
        old(state).wf(),
    ensures
        final(state).wf(),
        final(state).slots() == old(state).slots(),
        final(state).last_recv() == old(state).last_recv(),
        final(state).any_received() == old(state).any_received(),
        final(state).history() == old(state).history(),
        final(state).next_seq() == old(state).next_seq(),
        exists|due: Seq<bool>|
            {
                &&& due.len() == 64
                &&& (#[trigger] due_entries(old(state).slots(), due)).map_values(
                    |e: (u8, Seq<u8>)| reframed(e, old(state).last_recv(), old(state).history()),
                ) == r@.map_values(|v: Vec<u8>| v@)
                &&& restamped(old(state).stamps(), final(state).stamps(), due, old(state).stamp_counter())
            },
{
    let expired = state.take_expired();
    let (ack, ack_bits) = state.header_ack_fields();
    let ghost ev = expired@.map_values(|e: (u8, Vec<u8>)| (e.0, e.1@));
    let mut out: Vec<Vec<u8>> = Vec::new();
    let mut i: usize = 0;
    while i < expired.len()
        invariant
            i <= expired@.len(),
            out@.len() == i,
            ev == expired@.map_values(|e: (u8, Vec<u8>)| (e.0, e.1@)),
            forall|j: int| 0 <= j < i ==> #[trigger] out@[j]@ == reframed(ev[j], ack, ack_bits),
        decreases expired@.len() - i,
    {
        let header = PacketHeader {
            sequence: expired[i].0,
            ack,
            ack_bits,
            kind: PacketKind::Reliable,
        };
        out.push(frame_packet(&header, expired[i].1.as_slice()));
        i = i + 1;
    }
    proof {
        assert(ev.map_values(|e: (u8, Seq<u8>)| reframed(e, ack, ack_bits)) =~= out@.map_values(
            |v: Vec<u8>| v@,
        ));
    }
    out
}

} // verus!
