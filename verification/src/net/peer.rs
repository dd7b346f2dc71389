//! Connection status of a peer. The peer's measurements (round trip,
//! jitter, loss) are floating point and are kept by the application.
use vstd::prelude::*;

verus! {

/// Connection status of a peer.
#[derive(Debug, Clone, Copy, PartialEq, Eq, Structural)]
pub enum PeerStatus {
    Connecting,
    Connected,
    Disconnected,
}

/// Status after a packet from the peer: a connecting peer becomes
/// connected; any other status stays.
pub fn status_after_packet(status: PeerStatus) -> (r: PeerStatus)
    ensures
        r == (if status == PeerStatus::Connecting {
            PeerStatus::Connected
        } else {
            status
        }),
{
    if status == PeerStatus::Connecting {
        PeerStatus::Connected
    } else {
        status
    }
}

} // verus!
