//! Prediction of missing peer inputs (dead reckoning): a peer that sent no
//! input for a tick is assumed to repeat its last confirmed input. A wrong
//! guess is corrected by rollback.
use vstd::prelude::*;

use std::collections::HashMap;

verus! {

broadcast use vstd::std_specs::hash::group_hash_axioms;

/// A player's input as raw bytes: rollback does not know its structure.
#[derive(Debug)]
pub struct RawInput {
    pub player_id: u8,
    pub tick: u64,
    pub data: Vec<u8>,
    /// True when received from the peer, false when predicted.
    pub confirmed: bool,
}

/// Byte-wise copy of a buffer.
pub fn copy_bytes(data: &[u8]) -> (r: Vec<u8>)
    ensures
        r@ == data@,
{
    let mut out: Vec<u8> = Vec::new();
    let mut i: usize = 0;
    while i < data.len()
        invariant
            i <= data@.len(),
            out@ == data@.subrange(0, i as int),
        decreases data@.len() - i,
    {
        out.push(data[i]);
        i = i + 1;
    }
    proof {
        assert(data@.subrange(0, data@.len() as int) =~= data@);
    }
    out
}

/// Whether two buffers hold the same bytes.
pub fn same_bytes(a: &[u8], b: &[u8]) -> (r: bool)
    ensures
        r == (a@ == b@),
{
    if a.len() != b.len() {
        return false;
    }
    let mut i: usize = 0;
    while i < a.len()
        invariant
            i <= a@.len(),
            a@.len() == b@.len(),
            a@.subrange(0, i as int) == b@.subrange(0, i as int),
        decreases a@.len() - i,
    {
        if a[i] != b[i] {
            assert(a@[i as int] != b@[i as int]);
            return false;
        }
        proof {
            assert(a@.subrange(0, i + 1) =~= a@.subrange(0, i as int).push(a@[i as int]));
            assert(b@.subrange(0, i + 1) =~= b@.subrange(0, i as int).push(b@[i as int]));
        }
        i = i + 1;
    }
    assert(a@ =~= a@.subrange(0, a@.len() as int));
    assert(b@ =~= b@.subrange(0, b@.len() as int));
    true
}

/// A raw input as plain values: player, tick, bytes, confirmed.
pub type RawView = (u8, u64, Seq<u8>, bool);

pub open spec fn raw_view(r: RawInput) -> RawView {
    (r.player_id, r.tick, r.data@, r.confirmed)
}

/// A map of raw inputs, seen as plain values.
pub open spec fn views<K>(m: Map<K, RawInput>) -> Map<K, RawView> {
    m.map_values(|r: RawInput| raw_view(r))
}

impl Clone for RawInput {
    fn clone(&self) -> (r: Self)
        ensures
            raw_view(r) == raw_view(*self),
    {
        RawInput {
            player_id: self.player_id,
            tick: self.tick,
            data: copy_bytes(self.data.as_slice()),
            confirmed: self.confirmed,
        }
    }
}

/// Last confirmed input of each peer, for prediction.
pub struct InputPredictor {
    last_confirmed: HashMap<u8, RawInput>,
    /// Predictions made (metric).
    pub predictions_made: u64,
    /// Predictions that turned out wrong (corrected by rollback).
    pub mispredictions: u64,
}

/// The predicted input of `player_id` for `tick`: the bytes of its last
/// confirmed input, or none when it never sent one.
pub open spec fn prediction_of(last: Map<u8, RawView>, player_id: u8, tick: u64) -> RawView {
    (
        player_id,
        tick,
        if last.contains_key(player_id) {
            last[player_id].2
        } else {
            Seq::empty()
        },
        false,
    )
}

impl InputPredictor {
    pub closed spec fn last(&self) -> Map<u8, RawInput> {
        self.last_confirmed@
    }

    pub closed spec fn made(&self) -> u64 {
        self.predictions_made
    }

    pub closed spec fn missed(&self) -> u64 {
        self.mispredictions
    }

    pub fn new() -> (r: InputPredictor)
        ensures
            r.last() == Map::<u8, RawInput>::empty(),
            r.made() == 0,
            r.missed() == 0,
    {
        InputPredictor { last_confirmed: HashMap::new(), predictions_made: 0, mispredictions: 0 }
    }

    /// Predictions made and predictions found wrong.
    pub fn counts(&self) -> (r: (u64, u64))
        ensures
            r == (self.made(), self.missed()),
    {
        (self.predictions_made, self.mispredictions)
    }

    /// Records a confirmed input received from a peer.
    pub fn confirm(&mut self, input: RawInput)
        ensures
            final(self).last() == old(self).last().insert(input.player_id, input),
            final(self).made() == old(self).made(),
            final(self).missed() == old(self).missed(),
    {
        let pid = input.player_id;
        self.last_confirmed.insert(pid, input);
    }

    /// Predicts the input of a peer that sent none for this tick: its last
    /// confirmed input repeated, or an empty input ("standing still") when
    /// none was ever received. The counter would overflow past `u64::MAX`.
    pub fn predict(&mut self, player_id: u8, tick: u64) -> (r: RawInput)
        requires
            old(self).made() < u64::MAX,
        ensures
            raw_view(r) == prediction_of(views(old(self).last()), player_id, tick),
            final(self).last() == old(self).last(),
            final(self).made() == old(self).made() + 1,
            final(self).missed() == old(self).missed(),
    {
        self.predictions_made = self.predictions_made + 1;
        match self.last_confirmed.get(&player_id) {
            Some(last) => RawInput {
                player_id,
                tick,
                data: copy_bytes(last.data.as_slice()),
                confirmed: false,
            },
            None => RawInput { player_id, tick, data: Vec::new(), confirmed: false },
        }
    }

    /// Whether the real input differs from the prediction for this tick; a
    /// difference counts a misprediction and calls for a rollback.
    pub fn check_prediction(&mut self, predicted: &RawInput, actual: &RawInput) -> (r: bool)
        requires
            old(self).missed() < u64::MAX,
        ensures
            r == (predicted.data@ != actual.data@),
            final(self).missed() == old(self).missed() + if r {
                1int
            } else {
                0int
            },
            final(self).made() == old(self).made(),
            final(self).last() == old(self).last(),
    {
        if !same_bytes(predicted.data.as_slice(), actual.data.as_slice()) {
            self.mispredictions = self.mispredictions + 1;
            true
        } else {
            false
        }
    }
}

} // verus!
