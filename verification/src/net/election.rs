//! Coordinator election. The candidates are ranked by their network quality
//! (a floating-point score computed by the application); this module picks
//! the coordinator and its shadow from the ranking, derives the validation
//! token and checks takeovers. The coordinator is not on the critical path
//! of inputs: it only arbitrates checksums and coordinates failover.
use vstd::prelude::*;

verus! {

/// Outcome of an election.
#[derive(Debug, Clone, Copy, PartialEq, Eq, Structural)]
pub struct ElectionResult {
    /// Id of the elected coordinator.
    pub coordinator_id: u8,
    /// Id of the shadow (backup, takes over if the coordinator leaves).
    pub shadow_id: u8,
    /// Validation token, shared with every peer.
    pub token: u32,
}

/// Token: starting from the local id, xor in each peer id times 2654435761
/// (wrapping).
pub open spec fn token_of(ids: Seq<u8>, local_id: u8) -> u32
    decreases ids.len(),
{
    if ids.len() == 0 {
        local_id as u32
    } else {
        token_of(ids.drop_last(), local_id) ^ (((ids.last() as int * 2654435761) % 0x1_0000_0000) as u32)
    }
}

/// The validation token for a match with these peers.
pub fn election_token(peer_ids: &[u8], local_id: u8) -> (r: u32)
    ensures
        r == token_of(peer_ids@, local_id),
{
    let mut acc: u32 = local_id as u32;
    let mut i: usize = 0;
    while i < peer_ids.len()
        invariant
            i <= peer_ids@.len(),
            acc == token_of(peer_ids@.subrange(0, i as int), local_id),
        decreases peer_ids@.len() - i,
    {
        proof {
            assert(peer_ids@.subrange(0, i + 1).drop_last() =~= peer_ids@.subrange(0, i as int));
        }
        let id = peer_ids[i] as u32;
        acc = acc ^ id.wrapping_mul(2654435761);
        i = i + 1;
    }
    proof {
        assert(peer_ids@.subrange(0, peer_ids@.len() as int) =~= peer_ids@);
    }
    acc
}

/// The election from the candidates ranked best first (the local peer is
/// always among them): the best is coordinator, the second shadow (the
/// coordinator again when alone); `None` with no candidate.
pub fn elect_from_ranking(ranked: &[u8], peer_ids: &[u8], local_id: u8) -> (r: Option<
    ElectionResult,
>)
    ensures
        ranked@.len() == 0 ==> r is None,
        ranked@.len() > 0 ==> r == Some(
            ElectionResult {
                coordinator_id: ranked@[0],
                shadow_id: if ranked@.len() > 1 {
                    ranked@[1]
                } else {
                    ranked@[0]
                },
                token: token_of(peer_ids@, local_id),
            },
        ),
{
    if ranked.len() == 0 {
        return None;
    }
    let coordinator_id = ranked[0];
    let shadow_id = if ranked.len() > 1 {
        ranked[1]
    } else {
        coordinator_id
    };
    let token = election_token(peer_ids, local_id);
    Some(ElectionResult { coordinator_id, shadow_id, token })
}

/// A takeover is legitimate when it comes from the elected shadow with the
/// election's token.
pub fn validate_takeover(result: &ElectionResult, sender_id: u8, token: u32) -> (r: bool)
    ensures
        r == (sender_id == result.shadow_id && token == result.token),
{
    sender_id == result.shadow_id && token == result.token
}

} // verus!
