//! Per-peer acknowledgement state: sequences sent and received, and the
//! reliable packets still waiting for an acknowledgement.
use vstd::prelude::*;

use std::time::Instant;

use crate::net::instant::{duration_millis, instant_elapsed, instant_now};
use crate::net::rollback::prediction::copy_bytes;

verus! {

pub const MAX_PENDING: usize = 64;

/// Milliseconds after which an unacknowledged reliable packet is resent.
pub const RETRY_INTERVAL_MS: u128 = 50;

/// A reliable packet waiting for its acknowledgement. `stamp` numbers the
/// sends and resends of the state in the order they happen.
struct ReliablePending {
    sequence: u8,
    data: Vec<u8>,
    sent_at: Instant,
    stamp: u64,
}

/// A pending slot as plain values: sequence and bytes.
pub type PendingView = Option<(u8, Seq<u8>)>;

spec fn stamp_of(p: Option<ReliablePending>) -> u64 {
    match p {
        Some(r) => r.stamp,
        None => 0,
    }
}

spec fn pending_view(p: Option<ReliablePending>) -> PendingView {
    match p {
        Some(r) => Some((r.sequence, r.data@)),
        None => None,
    }
}

/// Signed distance from `remote` to `seq`, modulo 256, in `-128..=127`.
pub open spec fn seq_delta(seq: u8, remote: u8) -> int {
    let d = (seq - remote) % 256;
    if d >= 128 {
        d - 256
    } else {
        d
    }
}

/// `(remote_ack, recv_history)` after receiving `seq`: the first packet
/// ever becomes the last one with an empty history; afterwards a newer
/// packet shifts the history and becomes the last one, an older one sets its
/// bit when it is within 32 packets, and a duplicate changes nothing.
pub open spec fn recv_update(remote: u8, history: u32, received: bool, seq: u8) -> (u8, u32) {
    let d = seq_delta(seq, remote);
    if !received {
        (seq, 0)
    } else if d > 0 {
        let shifted: u32 = if d < 32 {
            (history << (d as u32)) as u32
        } else {
            0
        };
        (seq, shifted | (1u32 << ((d - 1) as u32)))
    } else if d < 0 {
        let bit = -d - 1;
        if bit < 32 {
            (remote, history | (1u32 << (bit as u32)))
        } else {
            (remote, history)
        }
    } else {
        (remote, history)
    }
}

/// Whether `seq` is acknowledged by `(remote_ack, recv_history)`: it is the
/// last packet received, or its bit is set in the history of the 32 before.
pub open spec fn acknowledges(remote: u8, history: u32, seq: u8) -> bool {
    let k = (remote - seq) % 256;
    seq == remote || (1 <= k <= 32 && (history >> ((k - 1) as u32)) & 1u32 == 1u32)
}

/// Index of the first free slot, if any.
pub open spec fn first_free(s: Seq<PendingView>) -> Option<int> {
    if exists|i: int| 0 <= i < s.len() && s[i] is None {
        Some(choose|i: int| 0 <= i < s.len() && s[i] is None && forall|j: int| 0 <= j < i ==> s[j] is Some)
    } else {
        None
    }
}

/// `i` is the first slot with the smallest stamp.
pub open spec fn first_min(stamps: Seq<u64>, i: int) -> bool {
    &&& 0 <= i < stamps.len()
    &&& forall|j: int| 0 <= j < stamps.len() ==> stamps[i] <= #[trigger] stamps[j]
    &&& forall|j: int| 0 <= j < i ==> stamps[i] < #[trigger] stamps[j]
}

/// The slot sent or resent longest ago: the first with the smallest stamp.
pub open spec fn oldest(stamps: Seq<u64>) -> int {
    choose|i: int| first_min(stamps, i)
}

/// Where a new reliable packet goes: the first free slot, or, when all are
/// taken, the slot sent or resent longest ago.
pub open spec fn target_slot(before: Seq<PendingView>, stamps: Seq<u64>) -> int {
    match first_free(before) {
        Some(i) => i,
        None => oldest(stamps),
    }
}

/// The slots that `due` marks carry stamps from `from` on; the others keep
/// theirs.
pub open spec fn restamped(before: Seq<u64>, after: Seq<u64>, due: Seq<bool>, from: u64) -> bool {
    &&& after.len() == before.len()
    &&& forall|i: int|
        0 <= i < before.len() ==> if due[i] {
            from <= #[trigger] after[i]
        } else {
            after[i] == before[i]
        }
}

/// The occupied slots keep the stamps they had.
pub open spec fn stamps_kept(before: Seq<u64>, slots: Seq<PendingView>, after: Seq<u64>) -> bool {
    &&& after.len() == before.len()
    &&& forall|i: int| 0 <= i < slots.len() && slots[i] is Some ==> #[trigger] after[i] == before[i]
}

/// The slot holds the packet with sequence `seq`.
pub open spec fn holds(p: PendingView, seq: u8) -> bool {
    match p {
        Some(q) => q.0 == seq,
        None => false,
    }
}

/// The slots after acknowledging `seq`: the first slot holding it is freed.
pub open spec fn release(s: Seq<PendingView>, seq: u8) -> Seq<PendingView> {
    if exists|i: int| 0 <= i < s.len() && holds(s[i], seq) {
        let i = choose|i: int|
            0 <= i < s.len() && holds(s[i], seq) && forall|j: int| 0 <= j < i ==> !holds(s[j], seq);
        s.update(i, None)
    } else {
        s
    }
}

/// Sequences an ACK covers: `ack`, then `ack - b - 1` for each bit `b` set
/// in `bits`, in increasing `b`.
pub open spec fn acked_by(ack: u8, bits: u32, n: int) -> Seq<u8>
    decreases n,
{
    if n <= 0 {
        seq![ack]
    } else {
        let prev = acked_by(ack, bits, n - 1);
        let b = (n - 1) as u32;
        if bits & (1u32 << b) != 0 {
            prev.push(((ack - b - 1) % 256) as u8)
        } else {
            prev
        }
    }
}

pub open spec fn release_all(s: Seq<PendingView>, seqs: Seq<u8>) -> Seq<PendingView>
    decreases seqs.len(),
{
    if seqs.len() == 0 {
        s
    } else {
        release(release_all(s, seqs.drop_last()), seqs.last())
    }
}

/// The entries that `due` marks, in slot order.
pub open spec fn due_entries(s: Seq<PendingView>, due: Seq<bool>) -> Seq<(u8, Seq<u8>)>
    decreases s.len(),
{
    if s.len() == 0 {
        Seq::empty()
    } else {
        let prev = due_entries(s.drop_last(), due);
        match s.last() {
            Some(e) => if due[s.len() - 1] {
                prev.push(e)
            } else {
                prev
            },
            None => prev,
        }
    }
}

/// ACK state toward one peer.
pub struct PeerAckState {
    /// Next sequence to send to this peer.
    local_seq: u8,
    /// Last sequence received from this peer.
    remote_ack: u8,
    /// Bitmask of the 32 packets before `remote_ack` (bit 0 = `remote_ack - 1`).
    recv_history: u32,
    /// Whether any packet has been received yet.
    received: bool,
    /// Reliable packets waiting for confirmation.
    pending: Vec<Option<ReliablePending>>,
    /// Stamp of the next send or resend of a reliable packet.
    next_stamp: u64,
}

impl PeerAckState {
    pub closed spec fn wf(&self) -> bool {
        &&& self.pending@.len() == MAX_PENDING
        &&& forall|i: int| 0 <= i < MAX_PENDING ==> #[trigger] self.stamps()[i] <= self.next_stamp
    }

    /// The stamp of each slot (0 for a free one): the larger, the later the
    /// packet in it was last sent.
    pub closed spec fn stamps(&self) -> Seq<u64> {
        self.pending@.map_values(|p: Option<ReliablePending>| stamp_of(p))
    }

    /// Stamp that the next send or resend of a reliable packet gets.
    pub closed spec fn stamp_counter(&self) -> u64 {
        self.next_stamp
    }

    pub closed spec fn next_seq(&self) -> u8 {
        self.local_seq
    }

    pub closed spec fn last_recv(&self) -> u8 {
        self.remote_ack
    }

    pub closed spec fn history(&self) -> u32 {
        self.recv_history
    }

    /// Whether any packet has been received from the peer.
    pub closed spec fn any_received(&self) -> bool {
        self.received
    }

    pub closed spec fn slots(&self) -> Seq<PendingView> {
        self.pending@.map_values(|p: Option<ReliablePending>| pending_view(p))
    }

    pub fn new() -> (r: PeerAckState)
        ensures
            r.wf(),
            r.next_seq() == 0,
            r.last_recv() == 0,
            r.history() == 0,
            !r.any_received(),
            r.slots() == Seq::new(64, |i: int| None::<(u8, Seq<u8>)>),
            r.stamp_counter() == 0,
    {
        let mut pending: Vec<Option<ReliablePending>> = Vec::new();
        let mut i: usize = 0;
        while i < MAX_PENDING
            invariant
                i <= 64,
                pending@.len() == i,
                forall|k: int| 0 <= k < i ==> pending@[k] is None,
            decreases 64 - i,
        {
            pending.push(None);
            i = i + 1;
        }
        let r = PeerAckState {
            local_seq: 0,
            remote_ack: 0,
            recv_history: 0,
            received: false,
            pending,
            next_stamp: 0,
        };
        assert(r.slots() =~= Seq::new(64, |i: int| None::<(u8, Seq<u8>)>));
        assert forall|i: int| 0 <= i < MAX_PENDING implies #[trigger] r.stamps()[i] <= r.next_stamp by {
            assert(r.pending@[i] is None);
        }
        r
    }

    /// Whether any packet has been received from the peer yet.
    pub fn has_received(&self) -> (r: bool)
        ensures
            r == self.any_received(),
    {
        self.received
    }

    /// Call on sending a packet; returns the sequence allocated to it. A
    /// reliable packet is kept until acknowledged: in the first free slot,
    /// or, with all 64 taken, in place of the one sent or resent longest ago.
    /// It gets the newest stamp.
    pub fn on_send(&mut self, reliable: bool, data: &[u8]) -> (r: u8)
        requires
            old(self).wf(),
        ensures
            final(self).wf(),
            r == old(self).next_seq(),
            final(self).next_seq() == (old(self).next_seq() + 1) % 256,
            final(self).last_recv() == old(self).last_recv(),
            final(self).any_received() == old(self).any_received(),
            final(self).history() == old(self).history(),
            reliable ==> {
                let t = target_slot(old(self).slots(), old(self).stamps());
                &&& 0 <= t < MAX_PENDING
                &&& final(self).slots() == old(self).slots().update(t, Some((r, data@)))
                &&& final(self).stamps() == old(self).stamps().update(t, old(self).stamp_counter())
                &&& forall|j: int|
                    0 <= j < MAX_PENDING ==> #[trigger] final(self).stamps()[j] <= final(self).stamps()[t]
                &&& final(self).stamp_counter() == old(self).stamp_counter() + 1 || (
                old(self).stamp_counter() == u64::MAX && final(self).stamp_counter() == u64::MAX)
            },
            !reliable ==> final(self).slots() == old(self).slots() && final(self).stamps() == old(
                self,
            ).stamps() && final(self).stamp_counter() == old(self).stamp_counter(),
    {
        let seq = self.local_seq;
        self.local_seq = self.local_seq.wrapping_add(1);
        proof {
            lemma_wf_kept(*old(self), *self);
        }
        if reliable {
            let stamp = self.next_stamp;
            self.insert_pending(
                ReliablePending { sequence: seq, data: copy_bytes(data), sent_at: instant_now(), stamp },
            );
            let ghost mid = *self;
            self.next_stamp = self.next_stamp.saturating_add(1);
            proof {
                lemma_wf_kept(mid, *self);
            }
        }
        seq
    }

    /// Call on receiving a packet from the peer; updates the receive
    /// history. The first packet starts an empty history: nothing before it
    /// was received. Afterwards a sequence more than 32 ahead, or exactly
    /// 128 away, would overflow a shift or a negation, so it is excluded.
    pub fn on_recv(&mut self, sequence: u8)
        requires
            old(self).wf(),
            old(self).any_received() ==> seq_delta(sequence, old(self).last_recv()) <= 32,
            old(self).any_received() ==> seq_delta(sequence, old(self).last_recv()) != -128,
        ensures
            final(self).wf(),
            (final(self).last_recv(), final(self).history()) == recv_update(
                old(self).last_recv(),
                old(self).history(),
                old(self).any_received(),
                sequence,
            ),
            final(self).any_received(),
            final(self).next_seq() == old(self).next_seq(),
            final(self).slots() == old(self).slots(),
            final(self).stamps() == old(self).stamps(),
            final(self).stamp_counter() == old(self).stamp_counter(),
    {
        if !self.received {
            self.remote_ack = sequence;
            self.recv_history = 0;
            self.received = true;
            proof {
                lemma_wf_kept(*old(self), *self);
            }
            return;
        }
        let w: u8 = sequence.wrapping_sub(self.remote_ack);
        // The distance read as a signed byte.
        let delta: i16 = if w >= 128 {
            w as i16 - 256
        } else {
            w as i16
        };
        assert(delta == seq_delta(sequence, self.remote_ack));
        if delta > 0 {
            let shift = delta as u32;
            // A shift by the whole width or more leaves nothing.
            self.recv_history = if shift < 32 {
                self.recv_history << shift
            } else {
                0
            };
            self.recv_history = self.recv_history | (1u32 << (shift - 1));
            self.remote_ack = sequence;
        } else if delta < 0 {
            let bit = (-delta - 1) as u32;
            if bit < 32 {
                self.recv_history = self.recv_history | (1u32 << bit);
            }
        }
        proof {
            lemma_wf_kept(*old(self), *self);
        }
    }

    /// Handles an ACK from the peer: the acknowledged packets stop pending.
    pub fn process_remote_ack(&mut self, ack: u8, ack_bits: u32)
        requires
            old(self).wf(),
        ensures
            final(self).wf(),
            final(self).slots() == release_all(old(self).slots(), acked_by(ack, ack_bits, 32)),
            stamps_kept(old(self).stamps(), final(self).slots(), final(self).stamps()),
            final(self).stamp_counter() == old(self).stamp_counter(),
            final(self).next_seq() == old(self).next_seq(),
            final(self).last_recv() == old(self).last_recv(),
            final(self).any_received() == old(self).any_received(),
            final(self).history() == old(self).history(),
    {
        self.remove_pending(ack);
        proof {
            assert(seq![ack].drop_last() =~= Seq::<u8>::empty());
            assert(acked_by(ack, ack_bits, 0) == seq![ack]);
            assert(release_all(old(self).slots(), Seq::<u8>::empty()) == old(self).slots());
            assert(release_all(old(self).slots(), seq![ack]) == release(old(self).slots(), ack));
        }
        let mut bit: u8 = 0;
        while bit < 32
            invariant
                bit <= 32,
                self.wf(),
                self.slots() == release_all(old(self).slots(), acked_by(ack, ack_bits, bit as int)),
                stamps_kept(old(self).stamps(), self.slots(), self.stamps()),
                self.stamp_counter() == old(self).stamp_counter(),
                self.next_seq() == old(self).next_seq(),
                self.last_recv() == old(self).last_recv(),
                self.any_received() == old(self).any_received(),
                self.history() == old(self).history(),
            decreases 32 - bit,
        {
            if ack_bits & (1u32 << bit) != 0 {
                let seq = ack.wrapping_sub(bit + 1);
                proof {
                    assert(seq == ((ack - (bit as u32) - 1) % 256) as u8) by (bit_vector)
                        requires
                            seq == ack.wrapping_sub((bit + 1) as u8),
                            bit < 32,
                    ;
                }
                let ghost xs = acked_by(ack, ack_bits, bit as int);
                self.remove_pending(seq);
                proof {
                    assert(xs.push(seq).drop_last() =~= xs);
                }
            }
            bit = bit + 1;
        }
    }

    /// ACK fields to put in the header of every packet sent to this peer.
    pub fn header_ack_fields(&self) -> (r: (u8, u32))
        ensures
            r == (self.last_recv(), self.history()),
    {
        (self.remote_ack, self.recv_history)
    }

    /// The reliable packets to resend: those pending for at least the retry
    /// interval, in slot order, each restarting its interval and taking a
    /// stamp newer than every earlier one. Which ones are due depends on the
    /// clock; the sequences and bytes stay pending.
    pub fn take_expired(&mut self) -> (r: Vec<(u8, Vec<u8>)>)
        requires
            old(self).wf(),
        ensures
            final(self).wf(),
            exists|due: Seq<bool>|
                {
                    &&& due.len() == MAX_PENDING
                    &&& #[trigger] due_entries(old(self).slots(), due) == r@.map_values(
                        |e: (u8, Vec<u8>)| (e.0, e.1@),
                    )
                    &&& restamped(old(self).stamps(), final(self).stamps(), due, old(self).stamp_counter())
                },
            old(self).stamp_counter() <= final(self).stamp_counter(),
            final(self).slots() == old(self).slots(),
            final(self).next_seq() == old(self).next_seq(),
            final(self).last_recv() == old(self).last_recv(),
            final(self).any_received() == old(self).any_received(),
            final(self).history() == old(self).history(),
    {
        let mut expired: Vec<(u8, Vec<u8>)> = Vec::new();
        let ghost mut due: Seq<bool> = Seq::empty();
        let ghost s0 = self.slots();
        let ghost st0 = self.stamps();
        let mut i: usize = 0;
        while i < self.pending.len()
            invariant
                i <= 64,
                self.wf(),
                self.slots() == s0,
                st0 == old(self).stamps(),
                old(self).stamp_counter() <= self.stamp_counter(),
                self.stamps().len() == 64,
                forall|j: int|
                    0 <= j < i ==> if due[j] {
                        old(self).stamp_counter() <= #[trigger] self.stamps()[j]
                    } else {
                        self.stamps()[j] == st0[j]
                    },
                forall|j: int| i <= j < 64 ==> #[trigger] self.stamps()[j] == st0[j],
                due.len() == i,
                due_entries(s0.subrange(0, i as int), due) == expired@.map_values(
                    |e: (u8, Vec<u8>)| (e.0, e.1@),
                ),
                self.next_seq() == old(self).next_seq(),
                self.last_recv() == old(self).last_recv(),
                self.any_received() == old(self).any_received(),
                self.history() == old(self).history(),
            decreases 64 - i,
        {
            let ghost before = expired@;
            let mut is_due = false;
            let mut refreshed: Option<ReliablePending> = None;
            match &self.pending[i] {
                Some(p) => {
                    if duration_millis(&instant_elapsed(&p.sent_at)) >= RETRY_INTERVAL_MS {
                        is_due = true;
                        expired.push((p.sequence, copy_bytes(p.data.as_slice())));
                        refreshed = Some(
                            ReliablePending {
                                sequence: p.sequence,
                                data: copy_bytes(p.data.as_slice()),
                                sent_at: instant_now(),
                                stamp: self.next_stamp,
                            },
                        );
                    }
                },
                None => {},
            }
            if is_due {
                let ghost st_before = self.stamps();
                let ghost c = self.next_stamp;
                self.pending.set(i, refreshed);
                self.next_stamp = self.next_stamp.saturating_add(1);
                proof {
                    assert(self.slots() =~= s0);
                    assert(self.stamps() =~= st_before.update(i as int, c));
                    assert forall|q: int| 0 <= q < MAX_PENDING implies #[trigger] self.stamps()[q]
                        <= self.next_stamp by {
                        if q != i {
                            assert(st_before[q] <= c);
                        }
                    }
                }
            }
            let ghost due_before = due;
            proof {
                due = due.push(is_due);
                assert(due.drop_last() =~= due_before);
                let pre = s0.subrange(0, i + 1);
                assert(pre.drop_last() =~= s0.subrange(0, i as int));
                lemma_due_entries_prefix(s0.subrange(0, i as int), due, due.drop_last());
                let prev_view = before.map_values(|e: (u8, Vec<u8>)| (e.0, e.1@));
                assert(prev_view == due_entries(s0.subrange(0, i as int), due));
                assert(pre.last() == s0[i as int]);
                assert(due[i as int] == is_due);
                if is_due {
                    assert(expired@.len() == before.len() + 1);
                    assert(expired@.drop_last() =~= before);
                    assert(s0[i as int] is Some);
                    assert(expired@.map_values(|e: (u8, Vec<u8>)| (e.0, e.1@)) =~= before.map_values(
                        |e: (u8, Vec<u8>)| (e.0, e.1@),
                    ).push(s0[i as int]->0));
                } else {
                    assert(expired@ == before);
                }
                assert(expired@.map_values(|e: (u8, Vec<u8>)| (e.0, e.1@)) =~= due_entries(
                    pre,
                    due,
                ));
            }
            i = i + 1;
        }
        proof {
            assert(s0.subrange(0, 64) =~= s0);
            assert(restamped(st0, self.stamps(), due, old(self).stamp_counter()));
        }
        expired
    }

    fn insert_pending(&mut self, pending: ReliablePending)
        requires
            old(self).wf(),
            pending.stamp <= old(self).stamp_counter(),
        ensures
            final(self).wf(),
            ({
                let t = target_slot(old(self).slots(), old(self).stamps());
                &&& 0 <= t < MAX_PENDING
                &&& final(self).slots() == old(self).slots().update(
                    t,
                    Some((pending.sequence, pending.data@)),
                )
                &&& final(self).stamps() == old(self).stamps().update(t, pending.stamp)
            }),
            final(self).stamp_counter() == old(self).stamp_counter(),
            final(self).next_seq() == old(self).next_seq(),
            final(self).last_recv() == old(self).last_recv(),
            final(self).any_received() == old(self).any_received(),
            final(self).history() == old(self).history(),
    {
        let ghost s0 = self.slots();
        let ghost st0 = self.stamps();
        let ghost p0 = self.pending@;
        let ghost e = (pending.sequence, pending.data@);
        let mut i: usize = 0;
        while i < self.pending.len()
            invariant
                i <= 64,
                self.wf(),
                self.slots() == s0,
                self.stamps() == st0,
                self.pending@ == p0,
                s0 == p0.map_values(|p: Option<ReliablePending>| pending_view(p)),
                st0 == p0.map_values(|p: Option<ReliablePending>| stamp_of(p)),
                s0 == old(self).slots(),
                st0 == old(self).stamps(),
                e == (pending.sequence, pending.data@),
                pending.stamp <= old(self).stamp_counter(),
                forall|j: int| 0 <= j < i ==> s0[j] is Some,
                self.stamp_counter() == old(self).stamp_counter(),
                self.next_seq() == old(self).next_seq(),
                self.last_recv() == old(self).last_recv(),
                self.any_received() == old(self).any_received(),
                self.history() == old(self).history(),
            decreases 64 - i,
        {
            if self.pending[i].is_none() {
                let ghost pv = pending;
                self.pending.set(i, Some(pending));
                proof {
                    assert(s0[i as int] is None);
                    let c = choose|c: int|
                        0 <= c < s0.len() && s0[c] is None && forall|j: int| 0 <= j < c ==> s0[j] is Some;
                    if c < i {
                        assert(s0[c] is Some);
                    } else if c > i {
                        assert(s0[i as int] is Some);
                    }
                    assert(first_free(s0) == Some(i as int));
                    assert(pv.sequence == e.0);
                    assert(pv.data@ == e.1);
                    assert(pending_view(Some(pv)) == Some(e));
                    assert(self.pending@ == p0.update(i as int, Some(pv)));
                    assert(self.slots() =~= s0.update(i as int, Some(e)));
                    assert(self.stamps() =~= st0.update(i as int, pv.stamp));
                    assert forall|k: int| 0 <= k < MAX_PENDING implies #[trigger] self.stamps()[k]
                        <= self.next_stamp by {
                        if k != i {
                            assert(self.stamps()[k] == st0[k]);
                            assert(old(self).stamps()[k] <= old(self).next_stamp);
                        }
                    }
                }
                return ;
            }
            i = i + 1;
        }
        assert(first_free(s0) is None);
        // Full buffer: the packet sent or resent longest ago gives way.
        let mut oldest_at: usize = 0;
        let mut k: usize = 1;
        while k < self.pending.len()
            invariant
                1 <= k <= 64,
                oldest_at < k,
                self.wf(),
                self.slots() == s0,
                self.stamps() == st0,
                self.pending@ == p0,
                s0 == p0.map_values(|p: Option<ReliablePending>| pending_view(p)),
                st0 == p0.map_values(|p: Option<ReliablePending>| stamp_of(p)),
                s0 == old(self).slots(),
                st0 == old(self).stamps(),
                e == (pending.sequence, pending.data@),
                pending.stamp <= old(self).stamp_counter(),
                forall|j: int| 0 <= j < 64 ==> s0[j] is Some,
                first_min(st0.subrange(0, k as int), oldest_at as int),
                self.stamp_counter() == old(self).stamp_counter(),
                self.next_seq() == old(self).next_seq(),
                self.last_recv() == old(self).last_recv(),
                self.any_received() == old(self).any_received(),
                self.history() == old(self).history(),
            decreases 64 - k,
        {
            let earlier = match (&self.pending[k], &self.pending[oldest_at]) {
                (Some(a), Some(b)) => a.stamp < b.stamp,
                _ => false,
            };
            proof {
                assert(s0[k as int] is Some);
                assert(s0[oldest_at as int] is Some);
                assert(earlier == (st0[k as int] < st0[oldest_at as int]));
                let pre = st0.subrange(0, k as int);
                let nxt = st0.subrange(0, k + 1);
                assert(pre[oldest_at as int] == st0[oldest_at as int]);
                assert forall|j: int| 0 <= j < k implies #[trigger] nxt[j] == pre[j] by {}
            }
            if earlier {
                oldest_at = k;
            }
            proof {
                let pre = st0.subrange(0, (k - 1) as int);
                let nxt = st0.subrange(0, k + 1);
                assert forall|j: int| 0 <= j < nxt.len() implies nxt[oldest_at as int] <= #[trigger] nxt[j] by {
                    if j < k {
                        assert(st0.subrange(0, k as int)[j] == nxt[j]);
                    }
                }
                assert forall|j: int| 0 <= j < oldest_at implies nxt[oldest_at as int] < #[trigger] nxt[j] by {
                    assert(st0.subrange(0, k as int)[j] == nxt[j]);
                }
            }
            k = k + 1;
        }
        proof {
            assert(st0.subrange(0, 64) =~= st0);
            assert(first_min(st0, oldest_at as int));
            let c = oldest(st0);
            assert(first_min(st0, c));
            if c < oldest_at {
                assert(st0[oldest_at as int] < st0[c]);
            } else if c > oldest_at {
                assert(st0[c] < st0[oldest_at as int]);
            }
            assert(c == oldest_at);
            assert(target_slot(s0, st0) == oldest_at);
        }
        let ghost pv = pending;
        self.pending.set(oldest_at, Some(pending));
        proof {
            assert(pending_view(Some(pv)) == Some(e));
            assert(self.slots() =~= s0.update(oldest_at as int, Some(e)));
            assert(self.stamps() =~= st0.update(oldest_at as int, pv.stamp));
            assert forall|q: int| 0 <= q < MAX_PENDING implies #[trigger] self.stamps()[q]
                <= self.next_stamp by {
                if q != oldest_at {
                    assert(self.stamps()[q] == st0[q]);
                    assert(old(self).stamps()[q] <= old(self).next_stamp);
                }
            }
        }
    }

    fn remove_pending(&mut self, sequence: u8)
        requires
            old(self).wf(),
        ensures
            final(self).wf(),
            final(self).slots() == release(old(self).slots(), sequence),
            stamps_kept(old(self).stamps(), final(self).slots(), final(self).stamps()),
            final(self).stamp_counter() == old(self).stamp_counter(),
            final(self).next_seq() == old(self).next_seq(),
            final(self).last_recv() == old(self).last_recv(),
            final(self).any_received() == old(self).any_received(),
            final(self).history() == old(self).history(),
    {
        let ghost s0 = self.slots();
        let ghost p0 = self.pending@;
        let mut i: usize = 0;
        while i < self.pending.len()
            invariant
                i <= 64,
                self.wf(),
                self.slots() == s0,
                self.pending@ == p0,
                s0 == p0.map_values(|p: Option<ReliablePending>| pending_view(p)),
                s0 == old(self).slots(),
                forall|j: int| 0 <= j < i ==> !holds(s0[j], sequence),
                self.stamps() == old(self).stamps(),
                self.stamp_counter() == old(self).stamp_counter(),
                self.next_seq() == old(self).next_seq(),
                self.last_recv() == old(self).last_recv(),
                self.any_received() == old(self).any_received(),
                self.history() == old(self).history(),
            decreases 64 - i,
        {
            let hit = match &self.pending[i] {
                Some(p) => p.sequence == sequence,
                None => false,
            };
            if hit {
                self.pending.set(i, None);
                proof {
                    assert(holds(s0[i as int], sequence));
                    let c = choose|c: int|
                        0 <= c < s0.len() && holds(s0[c], sequence) && forall|j: int|
                            0 <= j < c ==> !holds(s0[j], sequence);
                    assert(c == i);
                    assert(self.pending@ == p0.update(i as int, None));
                    assert(self.slots() =~= s0.update(i as int, None));
                    assert(release(s0, sequence) == s0.update(i as int, None));
                    assert(self.stamps() =~= old(self).stamps().update(i as int, 0u64));
                    assert forall|q: int| 0 <= q < MAX_PENDING implies #[trigger] self.stamps()[q]
                        <= self.next_stamp by {
                        if q != i {
                            assert(old(self).stamps()[q] <= old(self).next_stamp);
                        }
                    }
                }
                return ;
            }
            i = i + 1;
        }
    }
}

/// Changing anything but the slots keeps the slots, their stamps and the
/// well-formedness, as long as the stamp counter does not go back.
proof fn lemma_wf_kept(a: PeerAckState, b: PeerAckState)
    requires
        a.wf(),
        a.pending@ == b.pending@,
        a.next_stamp <= b.next_stamp,
    ensures
        b.wf(),
        b.stamps() == a.stamps(),
        b.slots() == a.slots(),
{
    assert(b.stamps() =~= a.stamps());
    assert(b.slots() =~= a.slots());
    assert forall|i: int| 0 <= i < MAX_PENDING implies #[trigger] b.stamps()[i] <= b.next_stamp by {
        assert(a.stamps()[i] <= a.next_stamp);
    }
}

proof fn lemma_due_entries_prefix(s: Seq<PendingView>, d1: Seq<bool>, d2: Seq<bool>)
    requires
        d1.len() >= s.len(),
        d2.len() >= s.len(),
        forall|k: int| 0 <= k < s.len() ==> #[trigger] d1[k] == d2[k],
    ensures
        due_entries(s, d1) == due_entries(s, d2),
    decreases s.len(),
{
    if s.len() > 0 {
        let t = s.drop_last();
        assert(t.len() == s.len() - 1);
        assert(d1[s.len() - 1] == d2[s.len() - 1]);
        lemma_due_entries_prefix(t, d1, d2);
    }
}

/// The ACK fields acknowledge `s` among the first `n` bits of the history.
spec fn acknowledged_upto(ack: u8, bits: u32, n: int, s: u8) -> bool {
    let k = (ack - s) % 256;
    s == ack || (1 <= k <= n && (bits >> ((k - 1) as u32)) & 1u32 == 1u32)
}

proof fn lemma_acked_by_upto(ack: u8, bits: u32, n: int, s: u8)
    requires
        0 <= n <= 32,
    ensures
        acked_by(ack, bits, n).contains(s) <==> acknowledged_upto(ack, bits, n, s),
    decreases n,
{
    if n == 0 {
        assert(acked_by(ack, bits, 0) =~= seq![ack]);
        assert(seq![ack].contains(s) <==> s == ack) by {
            if s == ack {
                assert(seq![ack][0] == s);
            }
        }
    } else {
        lemma_acked_by_upto(ack, bits, n - 1, s);
        let prev = acked_by(ack, bits, n - 1);
        let b = (n - 1) as u32;
        let x = ((ack - b - 1) % 256) as u8;
        let k = (ack - s) % 256;
        assert(b < 32);
        assert(bits & (1u32 << b) != 0 <==> (bits >> b) & 1u32 == 1u32) by (bit_vector)
            requires
                b < 32,
        ;
        assert(s == x <==> k == n);
        if bits & (1u32 << b) != 0 {
            assert(acked_by(ack, bits, n) == prev.push(x));
            assert(prev.push(x).contains(s) <==> prev.contains(s) || s == x) by {
                if s == x {
                    assert(prev.push(x)[prev.len() as int] == s);
                }
                if prev.contains(s) {
                    let i = choose|i: int| 0 <= i < prev.len() && prev[i] == s;
                    assert(prev.push(x)[i] == s);
                }
                if prev.push(x).contains(s) && s != x {
                    let i = choose|i: int| 0 <= i < prev.push(x).len() && prev.push(x)[i] == s;
                    assert(prev[i] == s);
                }
            }
        }
    }
}

/// The sequences the sender releases on reading an ACK header are exactly
/// those the receiver's header acknowledges.
pub proof fn law_released_iff_acknowledged(ack: u8, bits: u32, s: u8)
    ensures
        acked_by(ack, bits, 32).contains(s) <==> acknowledges(ack, bits, s),
{
    lemma_acked_by_upto(ack, bits, 32, s);
}

/// The ACK fields after receiving the sequences `q` in order, starting from
/// a fresh state: last received, history, whether anything was received.
pub open spec fn recv_all(q: Seq<u8>) -> (u8, u32, bool)
    decreases q.len(),
{
    if q.len() == 0 {
        (0, 0, false)
    } else {
        let p = recv_all(q.drop_last());
        let u = recv_update(p.0, p.1, p.2, q.last());
        (u.0, u.1, true)
    }
}

/// Every sequence of `q` lies in the window that the state before it handles.
pub open spec fn all_in_window(q: Seq<u8>) -> bool
    decreases q.len(),
{
    if q.len() == 0 {
        true
    } else {
        let p = recv_all(q.drop_last());
        &&& all_in_window(q.drop_last())
        &&& p.2 ==> seq_delta(q.last(), p.0) <= 32 && seq_delta(q.last(), p.0) != -128
    }
}

proof fn lemma_shift_bit(h: u32, d: u32, i: u32)
    requires
        1 <= d < 32,
        i < 32,
    ensures
        (((h << d) | (1u32 << ((d - 1) as u32))) >> i) & 1u32 == 1u32 <==> (i == d - 1 || (i >= d
            && (h >> ((i - d) as u32)) & 1u32 == 1u32)),
{
    assert((((h << d) | (1u32 << ((d - 1) as u32))) >> i) & 1u32 == 1u32 <==> (i == d - 1 || (i
        >= d && (h >> ((i - d) as u32)) & 1u32 == 1u32))) by (bit_vector)
        requires
            1 <= d < 32,
            i < 32,
    ;
}

proof fn lemma_or_bit(h: u32, b: u32, i: u32)
    requires
        b < 32,
        i < 32,
    ensures
        ((h | (1u32 << b)) >> i) & 1u32 == 1u32 <==> (i == b || (h >> i) & 1u32 == 1u32),
{
    assert(((h | (1u32 << b)) >> i) & 1u32 == 1u32 <==> (i == b || (h >> i) & 1u32 == 1u32))
        by (bit_vector)
        requires
            b < 32,
            i < 32,
    ;
}

proof fn lemma_top_bit(i: u32)
    requires
        i < 32,
    ensures
        (((0u32 | (1u32 << 31u32))) >> i) & 1u32 == 1u32 <==> i == 31,
{
    assert((((0u32 | (1u32 << 31u32))) >> i) & 1u32 == 1u32 <==> i == 31) by (bit_vector)
        requires
            i < 32,
    ;
}

proof fn lemma_zero_bit(i: u32)
    requires
        i < 32,
    ensures
        !((0u32 >> i) & 1u32 == 1u32),
{
    assert(!((0u32 >> i) & 1u32 == 1u32)) by (bit_vector);
}

/// Where a set bit of the history after receiving `s` comes from: `s`
/// itself (-1), the previous last sequence (-2), or bit `j` before.
proof fn lemma_step_bit(p0: u8, p1: u32, s: u8, i: u32) -> (j: int)
    requires
        seq_delta(s, p0) <= 32,
        seq_delta(s, p0) != -128,
        i < 32,
        (recv_update(p0, p1, true, s).1 >> i) & 1u32 == 1u32,
    ensures
        ({
            let a = recv_update(p0, p1, true, s).0;
            let x = ((a - 1 - i) % 256) as u8;
            ||| j == -1 && x == s
            ||| j == -2 && x == p0
            ||| 0 <= j < 32 && (p1 >> (j as u32)) & 1u32 == 1u32 && x == ((p0 - 1 - j) % 256) as u8
        }),
{
    let d = seq_delta(s, p0);
    let (a, bits) = recv_update(p0, p1, true, s);
    if d > 0 {
        if d < 32 {
            lemma_shift_bit(p1, d as u32, i);
        } else {
            lemma_top_bit(i);
        }
        if i == d - 1 {
            -2
        } else {
            (i - d) as int
        }
    } else if d < 0 {
        let b = -d - 1;
        if b < 32 {
            lemma_or_bit(p1, b as u32, i);
            if i == b {
                -1
            } else {
                i as int
            }
        } else {
            i as int
        }
    } else {
        i as int
    }
}

/// Once anything is received, the last sequence and every sequence whose
/// bit is set in the history were received: a bit never claims a packet
/// that did not arrive.
pub proof fn law_bits_mark_received(q: Seq<u8>)
    requires
        q.len() >= 1,
        all_in_window(q),
    ensures
        ({
            let (ack, bits, any) = recv_all(q);
            &&& any
            &&& q.contains(ack)
            &&& forall|i: u32|
                i < 32 && (bits >> i) & 1u32 == 1u32 ==> q.contains(((ack - 1 - i) % 256) as u8)
        }),
    decreases q.len(),
{
    let t = q.drop_last();
    let s = q.last();
    let p = recv_all(t);
    let (ack, bits, any) = recv_all(q);
    assert(q[q.len() - 1] == s);
    if !p.2 {
        assert forall|i: u32| i < 32 && (bits >> i) & 1u32 == 1u32 implies q.contains(
            ((ack - 1 - i) % 256) as u8,
        ) by {
            lemma_zero_bit(i);
        }
    } else {
        if t.len() == 0 {
            assert(recv_all(t) == (0u8, 0u32, false));
        }
        law_bits_mark_received(t);
        assert(t.contains(p.0));
        assert forall|x: u8| t.contains(x) implies q.contains(x) by {
            let k = choose|k: int| 0 <= k < t.len() && t[k] == x;
            assert(q[k] == x);
        }
        assert(ack == s || ack == p.0);
        assert forall|i: u32| i < 32 && (bits >> i) & 1u32 == 1u32 implies q.contains(
            ((ack - 1 - i) % 256) as u8,
        ) by {
            let j = lemma_step_bit(p.0, p.1, s, i);
            if 0 <= j {
                assert(t.contains(((p.0 - 1 - (j as u32)) % 256) as u8));
            }
        }
    }
}

/// A received packet is acknowledged by the headers sent afterwards, as
/// long as it is within 32 packets of the newest one received.
pub proof fn law_received_is_acknowledged(remote: u8, history: u32, received: bool, seq: u8)
    requires
        received ==> -32 <= seq_delta(seq, remote) <= 32,
    ensures
        ({
            let (r2, h2) = recv_update(remote, history, received, seq);
            acknowledges(r2, h2, seq)
        }),
{
    let d = seq_delta(seq, remote);
    if received && d < 0 {
        let b = (-d - 1) as u32;
        assert((remote - seq) % 256 == -d);
        assert(((history | (1u32 << b)) >> b) & 1u32 == 1u32) by (bit_vector)
            requires
                b < 32,
        ;
    }
}


/// No sequence is pending twice.
pub open spec fn distinct_seqs(s: Seq<PendingView>) -> bool {
    forall|i: int, j: int|
        0 <= i < j < s.len() && (#[trigger] s[i]) is Some && (#[trigger] s[j]) is Some ==> (s[i]->0).0
            != (s[j]->0).0
}

/// The slots with every packet whose sequence is in `seqs` freed.
pub open spec fn without(s: Seq<PendingView>, seqs: Seq<u8>) -> Seq<PendingView> {
    Seq::new(
        s.len(),
        |i: int|
            if s[i] is Some && seqs.contains((s[i]->0).0) {
                None
            } else {
                s[i]
            },
    )
}

proof fn lemma_release_all_distinct(s: Seq<PendingView>, seqs: Seq<u8>)
    requires
        distinct_seqs(s),
    ensures
        release_all(s, seqs) == without(s, seqs),
    decreases seqs.len(),
{
    if seqs.len() == 0 {
        assert(without(s, seqs) =~= s);
    } else {
        let init = seqs.drop_last();
        let q = seqs.last();
        lemma_release_all_distinct(s, init);
        let w = without(s, init);
        assert(distinct_seqs(w)) by {
            assert forall|i: int, j: int|
                0 <= i < j < w.len() && (#[trigger] w[i]) is Some && (#[trigger] w[j]) is Some implies (w[i]->0).0
                != (w[j]->0).0 by {
                assert(s[i] is Some && s[j] is Some);
            }
        }
        assert forall|x: u8| seqs.contains(x) <==> init.contains(x) || x == q by {
            if seqs.contains(x) {
                let k = choose|k: int| 0 <= k < seqs.len() && seqs[k] == x;
                if k < seqs.len() - 1 {
                    assert(init[k] == x);
                }
            }
            if init.contains(x) {
                let k = choose|k: int| 0 <= k < init.len() && init[k] == x;
                assert(seqs[k] == x);
            }
            if x == q {
                assert(seqs[seqs.len() - 1] == x);
            }
        }
        if exists|i: int| 0 <= i < w.len() && holds(w[i], q) {
            let c = choose|i: int|
                0 <= i < w.len() && holds(w[i], q) && forall|j: int| 0 <= j < i ==> !holds(w[j], q);
            assert forall|i: int| 0 <= i < w.len() && i != c implies !holds(w[i], q) by {
                if holds(w[i], q) {
                    if i < c {
                    } else {
                        assert((w[c]->0).0 != (w[i]->0).0);
                    }
                }
            }
            assert(release(w, q) =~= without(s, seqs));
        } else {
            assert(release(w, q) =~= without(s, seqs));
        }
    }
}

/// When no sequence is pending twice, an ACK header frees exactly the
/// pending packets it acknowledges and leaves every other slot as it was.
pub proof fn law_ack_frees_acknowledged(s: Seq<PendingView>, ack: u8, bits: u32)
    requires
        distinct_seqs(s),
    ensures
        release_all(s, acked_by(ack, bits, 32)).len() == s.len(),
        forall|i: int|
            0 <= i < s.len() ==> #[trigger] release_all(s, acked_by(ack, bits, 32))[i] == if s[i] is Some
                && acknowledges(ack, bits, (s[i]->0).0) {
                None
            } else {
                s[i]
            },
{
    lemma_release_all_distinct(s, acked_by(ack, bits, 32));
    assert forall|i: int| 0 <= i < s.len() && s[i] is Some implies (acked_by(ack, bits, 32).contains(
        (s[i]->0).0,
    ) <==> acknowledges(ack, bits, (s[i]->0).0)) by {
        law_released_iff_acknowledged(ack, bits, (s[i]->0).0);
    }
}

/// The sequence allocated by the `k`-th send of a fresh state.
pub open spec fn seq_after_sends(k: nat) -> u8
    decreases k,
{
    if k == 0 {
        0
    } else {
        ((seq_after_sends((k - 1) as nat) + 1) % 256) as u8
    }
}

/// Sends count sequences 0, 1, 2, ... wrapping at 256: the `k`-th send
/// since `new` gets `k % 256` (`new` starts at 0 and each `on_send` adds
/// one modulo 256).
pub proof fn law_sends_count_sequences(k: nat)
    ensures
        seq_after_sends(k) == k % 256,
    decreases k,
{
    if k > 0 {
        law_sends_count_sequences((k - 1) as nat);
    }
}

} // verus!
