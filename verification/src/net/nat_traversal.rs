//! NAT traversal: STUN binding requests and responses (RFC 5389) and the
//! messages of UDP hole punching. Sockets, timeouts and the attempt loops
//! run in the application.
use vstd::prelude::*;

verus! {

pub const STUN_MAGIC_COOKIE: u32 = 0x2112_A442;

/// Public STUN servers, to learn the external address and port.
pub const STUN_SERVERS: [&'static str; 3] = [
    "stun.l.google.com:19302",
    "stun1.l.google.com:19302",
    "stun.cloudflare.com:3478",
];

/// Payload of a hole-punching probe ("PIXM_PUNCH").
pub const PUNCH_PAYLOAD: [u8; 10] = [80, 73, 88, 77, 95, 80, 85, 78, 67, 72];

/// Payload of the answer to a probe ("PIXM_PONG").
pub const PONG_PAYLOAD: [u8; 9] = [80, 73, 88, 77, 95, 80, 79, 78, 71];

/// IPv4 address and port seen from outside the NAT; the address as the
/// big-endian number of its four octets.
#[derive(Debug, Clone, Copy, PartialEq, Eq, Structural)]
pub struct PublicAddr {
    pub ip: u32,
    pub port: u16,
}

/// Big-endian 16-bit value at `i`.
pub open spec fn be16(b: Seq<u8>, i: int) -> int {
    b[i] * 256 + b[i + 1]
}

/// Big-endian 32-bit value at `i`.
pub open spec fn be32(b: Seq<u8>, i: int) -> int {
    b[i] * 16777216 + b[i + 1] * 65536 + b[i + 2] * 256 + b[i + 3]
}

/// A binding request: type 0x0001, length 0, the magic cookie, then the
/// transaction id.
pub open spec fn stun_request(tid: Seq<u8>) -> Seq<u8> {
    seq![0x00u8, 0x01u8, 0x00u8, 0x00u8, 0x21u8, 0x12u8, 0xA4u8, 0x42u8] + tid
}

/// Length rounded up to a multiple of 4 (attributes are 32-bit aligned).
pub open spec fn round4(l: int) -> int {
    ((l + 3) / 4) * 4
}

/// What reading a STUN response can give: the mapped address, nothing, or
/// an attribute running past the end of the datagram (which cannot be read
/// without indexing out of bounds).
#[derive(Debug, Clone, Copy, PartialEq, Eq, Structural)]
pub enum StunScan {
    Found(PublicAddr),
    Missing,
    Malformed,
}

/// Walks the attributes from `pos` up to `end` looking for an IPv4
/// XOR-MAPPED-ADDRESS.
pub open spec fn scan_attrs(b: Seq<u8>, pos: int, end: int) -> StunScan
    decreases (if end > pos {
        end - pos
    } else {
        0
    }),
{
    if pos + 4 > end || pos < 0 {
        StunScan::Missing
    } else {
        let t = be16(b, pos);
        let l = be16(b, pos + 2);
        let p = pos + 4;
        if t == 0x0020 && l >= 8 {
            if p + 1 >= b.len() {
                StunScan::Malformed
            } else if b[p + 1] != 0x01 {
                StunScan::Missing
            } else if p + 8 > b.len() {
                StunScan::Malformed
            } else {
                StunScan::Found(
                    PublicAddr {
                        ip: (be32(b, p + 4) as u32) ^ 0x2112_A442u32,
                        port: (be16(b, p + 2) as u16) ^ 0x2112u16,
                    },
                )
            }
        } else {
            proof {
                assert(0 <= l);
                assert(round4(l) >= 0);
            }
            scan_attrs(b, p + round4(l), end)
        }
    }
}

/// Reading a binding response to the request with transaction id `tid`.
pub open spec fn stun_response(b: Seq<u8>, tid: Seq<u8>) -> StunScan {
    if b.len() < 20 || be16(b, 0) != 0x0101 || be32(b, 4) != 0x2112_A442 || b.subrange(8, 20)
        != tid || b.len() < 20 + be16(b, 2) {
        StunScan::Missing
    } else {
        scan_attrs(b, 20, 20 + be16(b, 2))
    }
}

/// Builds a STUN Binding Request.
pub fn build_stun_request(transaction_id: &[u8; 12]) -> (r: [u8; 20])
    ensures
        r@ == stun_request(transaction_id@),
{
    let mut msg = [0u8; 20];
    // Binding Request, length 0.
    msg.set(0, 0x00);
    msg.set(1, 0x01);
    msg.set(2, 0x00);
    msg.set(3, 0x00);
    // Magic cookie, big-endian.
    msg.set(4, 0x21);
    msg.set(5, 0x12);
    msg.set(6, 0xA4);
    msg.set(7, 0x42);
    let mut i: usize = 0;
    while i < 12
        invariant
            i <= 12,
            msg@.len() == 20,
            msg@.subrange(0, 8) == seq![0x00u8, 0x01u8, 0x00u8, 0x00u8, 0x21u8, 0x12u8, 0xA4u8, 0x42u8],
            msg@.subrange(8, 8 + i as int) == transaction_id@.subrange(0, i as int),
        decreases 12 - i,
    {
        msg.set(8 + i, transaction_id[i]);
        i = i + 1;
        proof {
            assert(msg@.subrange(8, 8 + i as int) =~= transaction_id@.subrange(0, i as int));
            assert(msg@.subrange(0, 8) =~= seq![0x00u8, 0x01u8, 0x00u8, 0x00u8, 0x21u8, 0x12u8, 0xA4u8, 0x42u8]);
        }
    }
    proof {
        assert(transaction_id@.subrange(0, 12) =~= transaction_id@);
        assert(msg@ =~= msg@.subrange(0, 8) + msg@.subrange(8, 20));
        assert(msg@ =~= stun_request(transaction_id@));
    }
    msg
}

fn read_be16(b: &[u8], i: usize) -> (r: usize)
    requires
        i + 2 <= b@.len(),
    ensures
        r == be16(b@, i as int),
{
    b[i] as usize * 256 + b[i + 1] as usize
}

fn read_be32(b: &[u8], i: usize) -> (r: u32)
    requires
        i + 4 <= b@.len(),
    ensures
        r == be32(b@, i as int),
{
    b[i] as u32 * 16777216 + b[i + 1] as u32 * 65536 + b[i + 2] as u32 * 256 + b[i + 3] as u32
}

/// Reads a binding response: the mapped address, nothing, or a malformed
/// attribute.
pub fn stun_scan(buf: &[u8], transaction_id: &[u8; 12]) -> (r: StunScan)
    ensures
        r == stun_response(buf@, transaction_id@),
{
    if buf.len() < 20 {
        return StunScan::Missing;
    }
    if read_be16(buf, 0) != 0x0101 {
        return StunScan::Missing;
    }
    if read_be32(buf, 4) != STUN_MAGIC_COOKIE {
        return StunScan::Missing;
    }
    let mut k: usize = 0;
    while k < 12
        invariant
            k <= 12,
            buf@.len() >= 20,
            buf@.subrange(8, 8 + k as int) == transaction_id@.subrange(0, k as int),
        decreases 12 - k,
    {
        if buf[8 + k] != transaction_id[k] {
            assert(buf@.subrange(8, 20)[k as int] != transaction_id@[k as int]);
            return StunScan::Missing;
        }
        k = k + 1;
        proof {
            assert(buf@.subrange(8, 8 + k as int) =~= transaction_id@.subrange(0, k as int));
        }
    }
    proof {
        assert(transaction_id@.subrange(0, 12) =~= transaction_id@);
    }
    let msg_len = read_be16(buf, 2);
    if buf.len() < 20 + msg_len {
        return StunScan::Missing;
    }
    let end = 20 + msg_len;
    let mut pos: usize = 20;
    while pos + 4 <= end
        invariant
            20 <= pos <= end + 70000,
            end <= buf@.len(),
            end == 20 + be16(buf@, 2),
            end <= 20 + 65535,
            scan_attrs(buf@, pos as int, end as int) == stun_response(buf@, transaction_id@),
        decreases end + 100000 - pos,
    {
        let attr_type = read_be16(buf, pos);
        let attr_len = read_be16(buf, pos + 2);
        let p = pos + 4;
        if attr_type == 0x0020 && attr_len >= 8 {
            if p + 1 >= buf.len() {
                return StunScan::Malformed;
            }
            if buf[p + 1] != 0x01 {
                return StunScan::Missing;
            }
            if p + 8 > buf.len() {
                return StunScan::Malformed;
            }
            let port = (read_be16(buf, p + 2) as u16) ^ 0x2112u16;
            let ip = read_be32(buf, p + 4) ^ STUN_MAGIC_COOKIE;
            return StunScan::Found(PublicAddr { ip, port });
        }
        let step = (attr_len + 3) / 4 * 4;
        assert(attr_len <= 65535);
        pos = p + step;
    }
    StunScan::Missing
}

/// The public address in a binding response, or `None`. A response whose
/// address attribute runs past the datagram would be read out of bounds,
/// so it is excluded.
pub fn parse_stun_response(buf: &[u8], transaction_id: &[u8; 12]) -> (r: Option<PublicAddr>)
    requires
        stun_response(buf@, transaction_id@) != StunScan::Malformed,
    ensures
        r == match stun_response(buf@, transaction_id@) {
            StunScan::Found(a) => Some(a),
            _ => None,
        },
{
    match stun_scan(buf, transaction_id) {
        StunScan::Found(a) => Some(a),
        _ => None,
    }
}

/// Transaction id from a clock reading in nanoseconds: its 8 low bytes,
/// little-endian, then zeros.
pub fn transaction_id_from(nanos: u128) -> (r: [u8; 12])
    ensures
        forall|k: int| 0 <= k < 8 ==> r@[k] == (nanos as int / #[trigger] pow256(k as nat)) % 256,
        forall|k: int| 8 <= k < 12 ==> r@[k] == 0,
{
    let mut id = [0u8; 12];
    let mut rest = nanos;
    let mut k: usize = 0;
    while k < 8
        invariant
            k <= 8,
            id@.len() == 12,
            rest == nanos as int / pow256(k as nat),
            forall|j: int| 0 <= j < k ==> id@[j] == (nanos as int / #[trigger] pow256(j as nat)) % 256,
            forall|j: int| 8 <= j < 12 ==> id@[j] == 0,
        decreases 8 - k,
    {
        id.set(k, (rest % 256) as u8);
        proof {
            lemma_pow256_pos(k as nat);
            vstd::arithmetic::div_mod::lemma_div_denominator(nanos as int, pow256(k as nat), 256);
            assert(pow256((k + 1) as nat) == 256 * pow256(k as nat));
            assert(pow256(k as nat) * 256 == 256 * pow256(k as nat)) by (nonlinear_arith);
        }
        rest = rest / 256;
        k = k + 1;
    }
    id
}

pub open spec fn pow256(n: nat) -> int
    decreases n,
{
    if n == 0 {
        1
    } else {
        256 * pow256((n - 1) as nat)
    }
}

proof fn lemma_pow256_pos(n: nat)
    ensures
        pow256(n) > 0,
    decreases n,
{
    if n > 0 {
        lemma_pow256_pos((n - 1) as nat);
    }
}

/// What a datagram from the peer means during hole punching.
#[derive(Debug, Clone, Copy, PartialEq, Eq, Structural)]
pub enum PunchReply {
    /// The peer's probe: answer with a pong, the path is open.
    Probe,
    /// The peer's answer to our probe: the path is open.
    Pong,
    /// Anything else.
    Other,
}

/// Classifies a datagram received from the peer while punching.
pub fn classify_punch(payload: &[u8]) -> (r: PunchReply)
    ensures
        r == (if payload@ == PUNCH_PAYLOAD@ {
            PunchReply::Probe
        } else if payload@ == PONG_PAYLOAD@ {
            PunchReply::Pong
        } else {
            PunchReply::Other
        }),
{
    let punch = PUNCH_PAYLOAD;
    let pong = PONG_PAYLOAD;
    if crate::net::rollback::prediction::same_bytes(payload, punch.as_slice()) {
        PunchReply::Probe
    } else if crate::net::rollback::prediction::same_bytes(payload, pong.as_slice()) {
        PunchReply::Pong
    } else {
        PunchReply::Other
    }
}

/// Probes sent before hole punching gives up.
pub const PUNCH_ATTEMPTS: usize = 10;

/// Milliseconds between two probes.
pub const PUNCH_INTERVAL_MS: u64 = 50;

/// Milliseconds after which hole punching gives up, whatever the attempt.
pub const PUNCH_DEADLINE_MS: u128 = 5000;

/// What hole punching does after probe `attempt` (counted from 0) and the
/// reply read after it (`Other` when nothing came from the peer).
#[derive(Clone, Copy, Debug, PartialEq, Eq, Structural)]
pub enum PunchStep {
    /// The peer's probe arrived: answer with a pong; the path is open.
    ReplyPongAndConnect,
    /// The peer's pong arrived: the path is open.
    Connect,
    /// Wait the probe interval and probe again.
    Retry,
    /// Give up: a relay would be needed.
    Fail,
}

/// Whether the hole-punching deadline has passed, `elapsed_ms` after it
/// started.
pub fn punch_deadline_passed(elapsed_ms: u128) -> (r: bool)
    ensures
        r == (elapsed_ms >= PUNCH_DEADLINE_MS),
{
    elapsed_ms >= PUNCH_DEADLINE_MS
}

/// One step of hole punching: a probe or a pong from the peer opens the
/// path; otherwise it probes again until the last attempt or the deadline.
pub fn punch_step(attempt: usize, deadline_passed: bool, reply: PunchReply) -> (r: PunchStep)
    ensures
        r == (match reply {
            PunchReply::Probe => PunchStep::ReplyPongAndConnect,
            PunchReply::Pong => PunchStep::Connect,
            PunchReply::Other => if attempt + 1 >= PUNCH_ATTEMPTS || deadline_passed {
                PunchStep::Fail
            } else {
                PunchStep::Retry
            },
        }),
{
    match reply {
        PunchReply::Probe => PunchStep::ReplyPongAndConnect,
        PunchReply::Pong => PunchStep::Connect,
        PunchReply::Other => {
            if attempt >= PUNCH_ATTEMPTS - 1 || deadline_passed {
                PunchStep::Fail
            } else {
                PunchStep::Retry
            }
        },
    }
}

} // verus!
