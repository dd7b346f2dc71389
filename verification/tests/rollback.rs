use pixm::net::rollback::buffer::{FrameSnapshot, MAX_ROLLBACK_FRAMES, SnapshotBuffer};
use pixm::net::rollback::prediction::{InputPredictor, RawInput, copy_bytes, same_bytes};
use pixm::net::rollback::session::{RollbackSession, Simulation};

// ─── snapshot buffer ────────────────────────────────────────────────────────

fn make_snap(tick: u64) -> FrameSnapshot {
    FrameSnapshot { tick, state: vec![tick as u8], rng_state: tick * 7, checksum: tick * 13 }
}

#[test]
fn push_and_get() {
    let mut buf = SnapshotBuffer::new();
    buf.push(make_snap(0));
    buf.push(make_snap(1));
    buf.push(make_snap(2));

    assert_eq!(buf.get(0).unwrap().tick, 0);
    assert_eq!(buf.get(2).unwrap().tick, 2);
    assert!(buf.get(99).is_none());
}

#[test]
fn overwrites_oldest_when_full() {
    let mut buf = SnapshotBuffer::new();
    for i in 0..MAX_ROLLBACK_FRAMES as u64 + 5 {
        buf.push(make_snap(i));
    }
    assert!(buf.get(0).is_none());
    assert!(buf.get(4).is_none());
    assert!(buf.get(5).is_some());
    assert!(buf.get(MAX_ROLLBACK_FRAMES as u64 + 4).is_some());
}

#[test]
fn len_tracks_filled_slots() {
    let mut buf = SnapshotBuffer::new();
    assert_eq!(buf.len(), 0);
    assert!(buf.is_empty());

    for i in 0..5 {
        buf.push(make_snap(i));
    }
    assert_eq!(buf.len(), 5);
}

#[test]
fn snapshot_keeps_its_contents_and_bounds() {
    let mut buf = SnapshotBuffer::new();
    for i in 3..40 {
        buf.push(make_snap(i));
    }
    assert_eq!(buf.len(), MAX_ROLLBACK_FRAMES);
    assert_eq!(buf.newest(), 39);
    assert_eq!(buf.oldest(), 24);
    let s = buf.get(30).unwrap();
    assert_eq!(s.state, vec![30u8]);
    assert_eq!(s.rng_state, 210);
    assert_eq!(s.checksum, 390);
    assert!(buf.get(23).is_none());
}

// ─── prediction ─────────────────────────────────────────────────────────────

fn make_input(pid: u8, tick: u64, data: &[u8]) -> RawInput {
    RawInput { player_id: pid, tick, data: data.to_vec(), confirmed: true }
}

#[test]
fn predict_repeats_last_confirmed() {
    let mut pred = InputPredictor::new();
    pred.confirm(make_input(1, 10, &[0x01, 0x02]));

    let predicted = pred.predict(1, 11);
    assert_eq!(predicted.data, &[0x01, 0x02]);
    assert!(!predicted.confirmed);
    assert_eq!(predicted.tick, 11);
}

#[test]
fn predict_unknown_peer_returns_empty() {
    let mut pred = InputPredictor::new();
    let predicted = pred.predict(99, 0);
    assert!(predicted.data.is_empty());
}

#[test]
fn misprediction_detected() {
    let mut pred = InputPredictor::new();
    pred.confirm(make_input(1, 10, &[0x01]));

    let predicted = pred.predict(1, 11);
    let actual = make_input(1, 11, &[0xFF]);
    assert!(pred.check_prediction(&predicted, &actual));
    assert_eq!(pred.mispredictions, 1);
}

#[test]
fn correct_prediction_no_rollback() {
    let mut pred = InputPredictor::new();
    pred.confirm(make_input(1, 10, &[0x01]));

    let predicted = pred.predict(1, 11);
    let actual = make_input(1, 11, &[0x01]);
    assert!(!pred.check_prediction(&predicted, &actual));
    assert_eq!(pred.mispredictions, 0);
}

#[test]
fn prediction_counters() {
    let mut pred = InputPredictor::new();
    pred.confirm(make_input(2, 1, &[5]));
    pred.confirm(make_input(2, 2, &[6]));
    let p = pred.predict(2, 3);
    assert_eq!(p.data, vec![6u8]);
    assert_eq!(p.player_id, 2);
    pred.predict(4, 3);
    assert_eq!(pred.counts(), (2, 0));
    assert!(same_bytes(&[1, 2], &copy_bytes(&[1, 2])));
    assert!(!same_bytes(&[1, 2], &[1]));
}

// ─── rollback session ───────────────────────────────────────────────────────

#[derive(Clone, Debug)]
struct DummySim {
    value: i64,
    rng: u64,
}

impl Simulation for DummySim {
    fn serialize(&self) -> Vec<u8> {
        let mut v = self.value.to_le_bytes().to_vec();
        v.extend(&self.rng.to_le_bytes());
        v
    }
    fn deserialize(data: &[u8]) -> Self {
        let value = i64::from_le_bytes(data[..8].try_into().unwrap());
        let rng = u64::from_le_bytes(data[8..16].try_into().unwrap());
        Self { value, rng }
    }
    fn step(&mut self, inputs: &[RawInput]) {
        for inp in inputs {
            if let Some(&b) = inp.data.first() {
                self.value += b as i64;
            }
        }
        self.rng = self.rng.wrapping_mul(6364136223846793005).wrapping_add(1);
    }
    fn checksum(&self) -> u64 {
        self.value as u64
    }
    fn rng_state(&self) -> u64 {
        self.rng
    }
}

fn input(pid: u8, tick: u64, val: u8) -> RawInput {
    RawInput { player_id: pid, tick, data: vec![val], confirmed: true }
}

#[test]
fn advance_accumulates_state() {
    let sim = DummySim { value: 0, rng: 42 };
    let mut session = RollbackSession::new(sim, 2);

    session.advance(vec![input(0, 0, 10), input(1, 0, 5)]);
    assert_eq!(session.sim().value, 15);
    assert_eq!(session.current_tick(), 1);
}

#[test]
fn rollback_corrects_misprediction() {
    let sim = DummySim { value: 0, rng: 42 };
    let mut session = RollbackSession::new(sim, 2);

    session.advance(vec![input(0, 0, 10)]);
    assert_eq!(session.sim().value, 10);

    session.advance(vec![input(0, 1, 5), input(1, 1, 5)]);
    assert_eq!(session.sim().value, 20);

    session.receive_remote_input(input(1, 0, 20));
    session.process_rollbacks();

    assert_eq!(session.sim().value, 40);
    assert_eq!(session.rollback_count, 1);
}

#[test]
fn no_rollback_when_prediction_correct() {
    let sim = DummySim { value: 0, rng: 42 };
    let mut session = RollbackSession::new(sim, 1);

    session.advance(vec![input(0, 0, 7)]);

    session.receive_remote_input(input(0, 0, 7));
    session.process_rollbacks();

    assert_eq!(session.rollback_count, 0);
}

#[test]
fn rollback_restores_rng_and_replays() {
    let sim = DummySim { value: 0, rng: 42 };
    let mut session = RollbackSession::new(sim, 2);
    session.advance(vec![input(0, 0, 1)]);
    session.advance(vec![input(0, 1, 1)]);
    session.advance(vec![input(0, 2, 1)]);
    let rng_before = session.sim().rng;

    // player 1 had sent 4 at tick 1: only ticks 1 and 2 are replayed
    session.receive_remote_input(input(1, 1, 4));
    session.process_rollbacks();

    assert_eq!(session.sim().value, 3 + 4);
    assert_eq!(session.sim().rng, rng_before);
    assert_eq!(session.current_tick(), 3);
    assert_eq!(session.checksum(), 7);
    assert_eq!(session.rollback_count, 1);
    // nothing pending any more
    session.process_rollbacks();
    assert_eq!(session.rollback_count, 1);
}

#[test]
fn prediction_counts_follow_missing_players() {
    let sim = DummySim { value: 0, rng: 1 };
    let mut session = RollbackSession::new(sim, 3);
    session.advance(vec![input(0, 0, 1)]);
    // players 1 and 2 were predicted
    assert_eq!(session.prediction_counts(), (2, 0));
    session.receive_remote_input(input(1, 0, 0));
    session.process_rollbacks();
    // an empty prediction against a non-empty input is a misprediction
    assert_eq!(session.prediction_counts().1, 1);
}

#[test]
fn second_correction_replays_from_corrected_state() {
    let sim = DummySim { value: 0, rng: 42 };
    let mut session = RollbackSession::new(sim, 2);
    session.advance(vec![input(0, 0, 10)]);
    session.advance(vec![input(0, 1, 5)]);
    session.advance(vec![input(0, 2, 1)]);
    session.receive_remote_input(input(1, 0, 20));
    session.process_rollbacks();
    assert_eq!(session.sim().value, 36);
    session.receive_remote_input(input(1, 1, 3));
    session.process_rollbacks();
    // the corrected inputs replayed from the start: 10 + 20, 5 + 3, 1
    assert_eq!(session.sim().value, 39);
    assert_eq!(session.rollback_count, 2);
    assert_eq!(session.current_tick(), 3);
}

#[test]
fn old_snapshot_outside_window_is_dropped() {
    let mut buf = SnapshotBuffer::new();
    for i in 0..21 {
        buf.push(make_snap(i));
    }
    // tick 3 is older than the window of the 16 ticks up to 20
    buf.push(make_snap(3));
    assert_eq!(buf.get(19).unwrap().tick, 19);
    assert!(buf.get(3).is_none());
    assert_eq!(buf.newest(), 20);
}
