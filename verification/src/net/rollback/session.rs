//! `RollbackSession`: snapshots, prediction and re-simulation.
//!
//! Each tick: gather inputs (confirmed and predicted), save a snapshot,
//! advance one tick. A late input that contradicts its prediction schedules
//! a rollback: restore the snapshot of its tick and re-simulate up to the
//! current tick with the corrected inputs, saving the snapshots again.
use vstd::prelude::*;

use std::collections::HashMap;

use crate::net::rollback::buffer::{
    FrameSnapshot, SnapshotBuffer, lemma_push_only_adds, lemma_pushed_window_ok, lookup, pushed,
    window_ok,
};
use crate::net::rollback::prediction::{
    InputPredictor, RawInput, RawView, copy_bytes, prediction_of, raw_view, views,
};

verus! {

broadcast use vstd::std_specs::hash::group_hash_axioms;

/// What the game implements: rollback knows nothing of the simulation.
pub trait Simulation: Clone {
    /// Serialises the whole state, for a snapshot.
    fn serialize(&self) -> Vec<u8>;

    /// Restores a state from a snapshot.
    fn deserialize(data: &[u8]) -> Self;

    /// Advances one tick with the given inputs.
    fn step(&mut self, inputs: &[RawInput]);

    /// Quick hash of the current state.
    fn checksum(&self) -> u64;

    /// Current state of the deterministic random generator.
    fn rng_state(&self) -> u64;
}

pub open spec fn seq_views(s: Seq<RawInput>) -> Seq<RawView> {
    s.map_values(|r: RawInput| raw_view(r))
}

pub open spec fn has_pid(s: Seq<RawInput>, pid: u8) -> bool {
    exists|j: int| 0 <= j < s.len() && s[j].player_id == pid
}

/// Last confirmed inputs after confirming `inputs` in order.
pub open spec fn confirm_all(last: Map<u8, RawView>, inputs: Seq<RawInput>) -> Map<u8, RawView>
    decreases inputs.len(),
{
    if inputs.len() == 0 {
        last
    } else {
        confirm_all(last, inputs.drop_last()).insert(
            inputs.last().player_id,
            raw_view(inputs.last()),
        )
    }
}

/// Predictions for the players `0..n` that sent no input, in player order.
pub open spec fn predicted_for_missing(
    confirmed: Seq<RawInput>,
    last: Map<u8, RawView>,
    n: int,
    tick: u64,
) -> Seq<RawView>
    decreases n,
{
    if n <= 0 {
        Seq::empty()
    } else {
        let prev = predicted_for_missing(confirmed, last, n - 1, tick);
        if has_pid(confirmed, (n - 1) as u8) {
            prev
        } else {
            prev.push(prediction_of(last, (n - 1) as u8, tick))
        }
    }
}

/// Index of the first input of `pid` in `s`.
pub open spec fn first_of(s: Seq<RawView>, pid: u8) -> int {
    choose|i: int| 0 <= i < s.len() && s[i].0 == pid && forall|j: int| 0 <= j < i ==> s[j].0 != pid
}

pub open spec fn has_view_pid(s: Seq<RawView>, pid: u8) -> bool {
    exists|i: int| 0 <= i < s.len() && s[i].0 == pid
}

/// The log with the logged input of `r`'s player at `r`'s tick replaced by
/// `r`, when there is one.
pub open spec fn replace_logged(log: Map<u64, Seq<RawView>>, r: RawView) -> Map<u64, Seq<RawView>> {
    if log.contains_key(r.1) && has_view_pid(log[r.1], r.0) {
        log.insert(r.1, log[r.1].update(first_of(log[r.1], r.0), r))
    } else {
        log
    }
}

pub open spec fn replace_all(log: Map<u64, Seq<RawView>>, late: Seq<RawView>) -> Map<u64, Seq<RawView>>
    decreases late.len(),
{
    if late.len() == 0 {
        log
    } else {
        replace_logged(replace_all(log, late.drop_last()), late.last())
    }
}

/// Smallest tick among late inputs.
pub open spec fn min_tick(late: Seq<RawView>) -> u64
    decreases late.len(),
{
    if late.len() <= 1 {
        late[0].1
    } else {
        let m = min_tick(late.drop_last());
        if late.last().1 < m {
            late.last().1
        } else {
            m
        }
    }
}

/// The inputs logged for a tick; none when the tick has no entry.
pub open spec fn logged_at(log: Map<u64, Seq<RawView>>, t: int) -> Seq<RawView> {
    if log.contains_key(t as u64) {
        log[t as u64]
    } else {
        Seq::empty()
    }
}

/// The inputs of the ticks `from..to`, in tick order, as a re-simulation
/// steps through them.
pub open spec fn replayed(log: Map<u64, Seq<RawView>>, from: u64, to: u64) -> Seq<Seq<RawView>> {
    if from <= to {
        Seq::new((to - from) as nat, |k: int| logged_at(log, from + k))
    } else {
        Seq::empty()
    }
}

pub struct RollbackSession<S: Simulation> {
    sim: S,
    snapshots: SnapshotBuffer,
    predictor: InputPredictor,
    current_tick: u64,
    confirmed_tick: u64,
    /// Inputs per tick, confirmed and predicted.
    input_log: HashMap<u64, Vec<RawInput>>,
    /// Late inputs waiting for a rollback.
    pending_late: Vec<RawInput>,
    /// Rollbacks performed (metric).
    pub rollback_count: u64,
    pub player_count: u8,
    /// What was done to `sim`: the snapshot bytes it was last restored from
    /// (none for the initial simulation), then the inputs of each step since.
    history: Ghost<(Option<Seq<u8>>, Seq<Seq<RawView>>)>,
    /// The inputs the simulation has been fed since the session began, a
    /// restored snapshot counting as the inputs its state had been fed.
    fed: Ghost<Seq<Seq<RawView>>>,
    /// For each snapshot saved, what the simulation had been fed then.
    snap_fed: Ghost<Map<u64, Seq<Seq<RawView>>>>,
}

fn clone_inputs(v: &Vec<RawInput>) -> (r: Vec<RawInput>)
    ensures
        seq_views(r@) == seq_views(v@),
{
    let mut out: Vec<RawInput> = Vec::new();
    let mut i: usize = 0;
    while i < v.len()
        invariant
            i <= v@.len(),
            out@.len() == i,
            seq_views(out@) =~= seq_views(v@.subrange(0, i as int)),
        decreases v@.len() - i,
    {
        let c = v[i].clone();
        let ghost before = out@;
        out.push(c);
        proof {
            assert(raw_view(c) == raw_view(v@[i as int]));
            assert forall|k: int| 0 <= k < out@.len() implies #[trigger] raw_view(out@[k]) == raw_view(
                v@.subrange(0, i + 1)[k],
            ) by {
                if k < i {
                    assert(raw_view(before[k]) == seq_views(before)[k]);
                    assert(seq_views(v@.subrange(0, i as int))[k] == raw_view(v@.subrange(0, i as int)[k]));
                }
            }
        }
        i = i + 1;
        proof {
            assert(seq_views(out@) =~= seq_views(v@.subrange(0, i as int)));
        }
    }
    proof {
        assert(v@.subrange(0, v@.len() as int) =~= v@);
    }
    out
}

/// Index of the first input of `pid`.
fn position_of(v: &Vec<RawInput>, pid: u8) -> (r: Option<usize>)
    ensures
        r matches Some(i) ==> i < v@.len() && v@[i as int].player_id == pid && forall|j: int|
            0 <= j < i ==> v@[j].player_id != pid,
        r is None ==> forall|j: int| 0 <= j < v@.len() ==> v@[j].player_id != pid,
{
    let mut i: usize = 0;
    while i < v.len()
        invariant
            i <= v@.len(),
            forall|j: int| 0 <= j < i ==> v@[j].player_id != pid,
        decreases v@.len() - i,
    {
        if v[i].player_id == pid {
            return Some(i);
        }
        i = i + 1;
    }
    None
}

proof fn lemma_first_of(s: Seq<RawInput>, pid: u8, i: int)
    requires
        0 <= i < s.len(),
        s[i].player_id == pid,
        forall|j: int| 0 <= j < i ==> s[j].player_id != pid,
    ensures
        has_view_pid(seq_views(s), pid),
        first_of(seq_views(s), pid) == i,
{
    let vs = seq_views(s);
    assert(vs[i].0 == pid);
    let k = first_of(vs, pid);
    assert(0 <= k < vs.len() && vs[k].0 == pid && forall|j: int| 0 <= j < k ==> vs[j].0 != pid);
    if k < i {
        assert(s[k].player_id != pid);
    } else if k > i {
        assert(vs[i].0 != pid);
    }
}


fn contains_u8(v: &Vec<u8>, x: u8) -> (r: bool)
    ensures
        r == exists|k: int| 0 <= k < v@.len() && v@[k] == x,
{
    let mut i: usize = 0;
    while i < v.len()
        invariant
            i <= v@.len(),
            forall|k: int| 0 <= k < i ==> v@[k] != x,
        decreases v@.len() - i,
    {
        if v[i] == x {
            return true;
        }
        i = i + 1;
    }
    false
}

proof fn lemma_predicted_len_mono(
    confirmed: Seq<RawInput>,
    last: Map<u8, RawView>,
    a: int,
    b: int,
    tick: u64,
)
    requires
        0 <= a <= b,
    ensures
        predicted_for_missing(confirmed, last, a, tick).len() <= predicted_for_missing(
            confirmed,
            last,
            b,
            tick,
        ).len(),
    decreases b - a,
{
    if a < b {
        lemma_predicted_len_mono(confirmed, last, a, b - 1, tick);
    }
}

/// Logs that agree below `to` replay the same inputs up to `to`.
proof fn lemma_replayed_agree(l1: Map<u64, Seq<RawView>>, l2: Map<u64, Seq<RawView>>, to: u64)
    requires
        forall|t: int| 0 <= t < to ==> #[trigger] logged_at(l1, t) == logged_at(l2, t),
    ensures
        replayed(l1, 0, to) == replayed(l2, 0, to),
{
    assert(replayed(l1, 0, to) =~= replayed(l2, 0, to));
}

/// Replaying one more tick adds that tick's inputs.
proof fn lemma_replayed_push(log: Map<u64, Seq<RawView>>, to: u64)
    requires
        to < u64::MAX,
    ensures
        replayed(log, 0, (to + 1) as u64) == replayed(log, 0, to).push(logged_at(log, to as int)),
{
    assert(replayed(log, 0, (to + 1) as u64) =~= replayed(log, 0, to).push(logged_at(log, to as int)));
}

proof fn lemma_min_tick_le(late: Seq<RawView>)
    requires
        late.len() > 0,
    ensures
        forall|k: int| 0 <= k < late.len() ==> min_tick(late) <= #[trigger] late[k].1,
        exists|k: int| 0 <= k < late.len() && min_tick(late) == #[trigger] late[k].1,
    decreases late.len(),
{
    if late.len() > 1 {
        lemma_min_tick_le(late.drop_last());
        assert forall|k: int| 0 <= k < late.len() implies min_tick(late) <= #[trigger] late[k].1 by {
            if k < late.len() - 1 {
                assert(late.drop_last()[k] == late[k]);
            }
        }
        let j = choose|j: int| 0 <= j < late.drop_last().len() && min_tick(late.drop_last())
            == #[trigger] late.drop_last()[j].1;
        assert(late.drop_last()[j] == late[j]);
        if late.last().1 < min_tick(late.drop_last()) {
            assert(late[late.len() - 1].1 == min_tick(late));
        } else {
            assert(late[j].1 == min_tick(late));
        }
    } else {
        assert(late[0].1 == min_tick(late));
    }
}

/// Replacing logged inputs by late ones touches only the ticks of the late
/// inputs.
proof fn lemma_replace_all_below(log: Map<u64, Seq<RawView>>, late: Seq<RawView>, t: int)
    requires
        0 <= t,
        forall|k: int| 0 <= k < late.len() ==> t < #[trigger] late[k].1,
    ensures
        logged_at(replace_all(log, late), t) == logged_at(log, t),
    decreases late.len(),
{
    if late.len() > 0 {
        assert forall|k: int| 0 <= k < late.drop_last().len() implies t < #[trigger] late.drop_last()[k].1 by {
            assert(late.drop_last()[k] == late[k]);
        }
        lemma_replace_all_below(log, late.drop_last(), t);
        assert(late[late.len() - 1] == late.last());
        let l0 = replace_all(log, late.drop_last());
        let r = late.last();
        assert(t as u64 != r.1);
        assert(logged_at(replace_logged(l0, r), t) == logged_at(l0, t));
    }
}

impl<S: Simulation> RollbackSession<S> {
    pub closed spec fn now(&self) -> u64 {
        self.current_tick
    }

    pub closed spec fn log(&self) -> Map<u64, Seq<RawView>> {
        self.input_log@.map_values(|v: Vec<RawInput>| seq_views(v@))
    }

    pub closed spec fn late(&self) -> Seq<RawView> {
        seq_views(self.pending_late@)
    }

    pub closed spec fn last_inputs(&self) -> Map<u8, RawView> {
        views(self.predictor.last())
    }

    pub closed spec fn predictions(&self) -> (u64, u64) {
        (self.predictor.made(), self.predictor.missed())
    }

    pub closed spec fn rollbacks(&self) -> u64 {
        self.rollback_count
    }

    pub closed spec fn players(&self) -> u8 {
        self.player_count
    }

    /// The last tick known to be confirmed by every peer.
    pub closed spec fn confirmed(&self) -> u64 {
        self.confirmed_tick
    }

    /// The simulation as it stands.
    pub closed spec fn simulation(&self) -> S {
        self.sim
    }

    /// The snapshot bytes the simulation was last restored from (none for
    /// the initial one) and the inputs of each step it took since.
    pub closed spec fn history(&self) -> (Option<Seq<u8>>, Seq<Seq<RawView>>) {
        self.history@
    }

    /// The inputs the simulation has been fed since the session began,
    /// tick by tick, a state restored from a snapshot counting as the
    /// inputs that state had been fed when the snapshot was saved.
    pub closed spec fn fed(&self) -> Seq<Seq<RawView>> {
        self.fed@
    }

    /// For each snapshot saved, what the simulation had been fed then.
    pub closed spec fn snap_fed(&self) -> Map<u64, Seq<Seq<RawView>>> {
        self.snap_fed@
    }

    /// Rollback is transparent: the simulation has been fed exactly the
    /// logged inputs of every tick so far, and so had each snapshot still in
    /// the buffer up to its tick; the late inputs are for past ticks.
    pub open spec fn consistent(&self) -> bool {
        &&& window_ok(self.snaps().0, self.snaps().1, self.snaps().2)
        &&& self.snaps().2 <= self.now()
        &&& self.fed() == replayed(self.log(), 0, self.now())
        &&& forall|t: u64|
            #[trigger] lookup(self.snaps().0, self.snaps().1, self.snaps().2, t) is Some ==> t
                < self.now() && self.snap_fed().contains_key(t) && self.snap_fed()[t] == replayed(
                self.log(),
                0,
                t,
            )
        &&& forall|k: int| 0 <= k < self.late().len() ==> #[trigger] self.late()[k].1 < self.now()
    }

    /// Ready to replay from `target`: the snapshots up to `target` hold the
    /// state of the logged inputs before their tick, and no late input waits.
    pub open spec fn replay_ready(&self, target: u64) -> bool {
        &&& window_ok(self.snaps().0, self.snaps().1, self.snaps().2)
        &&& self.snaps().2 <= self.now()
        &&& forall|t: u64|
            #[trigger] lookup(self.snaps().0, self.snaps().1, self.snaps().2, t) is Some ==> t
                < self.now() && self.snap_fed().contains_key(t) && (t <= target ==> self.snap_fed()[t]
                == replayed(self.log(), 0, t))
        &&& self.late().len() == 0
    }

    pub closed spec fn snaps(&self) -> (Seq<Option<FrameSnapshot>>, u64, u64) {
        (self.snapshots@, self.snapshots.oldest_spec(), self.snapshots.newest_spec())
    }

    pub fn new(initial_sim: S, player_count: u8) -> (r: Self)
        ensures
            r.now() == 0,
            r.log() == Map::<u64, Seq<RawView>>::empty(),
            r.late() == Seq::<RawView>::empty(),
            r.last_inputs() == Map::<u8, RawView>::empty(),
            r.predictions() == (0u64, 0u64),
            r.rollbacks() == 0,
            r.players() == player_count,
            r.confirmed() == 0,
            r.snaps() == (Seq::new(16, |i: int| None::<FrameSnapshot>), 0u64, 0u64),
            r.history() == (None::<Seq<u8>>, Seq::<Seq<RawView>>::empty()),
            r.simulation() == initial_sim,
            r.fed() == Seq::<Seq<RawView>>::empty(),
            r.consistent(),
    {
        let r = RollbackSession {
            sim: initial_sim,
            snapshots: SnapshotBuffer::new(),
            predictor: InputPredictor::new(),
            current_tick: 0,
            confirmed_tick: 0,
            input_log: HashMap::new(),
            pending_late: Vec::new(),
            rollback_count: 0,
            player_count,
            history: Ghost((None, Seq::empty())),
            fed: Ghost(Seq::empty()),
            snap_fed: Ghost(Map::empty()),
        };
        proof {
            assert(r.log() =~= Map::<u64, Seq<RawView>>::empty());
            assert(r.last_inputs() =~= Map::<u8, RawView>::empty());
            assert(r.late() =~= Seq::<RawView>::empty());
            assert(replayed(r.log(), 0, 0) =~= Seq::<Seq<RawView>>::empty());
            assert(window_ok(r.snaps().0, r.snaps().1, r.snaps().2));
        }
        r
    }

    fn save_snapshot(&mut self, tick: u64)
        ensures
            exists|sn: FrameSnapshot|
                sn.tick == tick && #[trigger] final(self).snaps() == pushed(
                    old(self).snaps().0,
                    old(self).snaps().1,
                    old(self).snaps().2,
                    sn,
                ),
            final(self).now() == old(self).now(),
            final(self).log() == old(self).log(),
            final(self).late() == old(self).late(),
            final(self).last_inputs() == old(self).last_inputs(),
            final(self).predictions() == old(self).predictions(),
            final(self).rollbacks() == old(self).rollbacks(),
            final(self).players() == old(self).players(),
            final(self).confirmed() == old(self).confirmed(),
            final(self).history() == old(self).history(),
            final(self).fed() == old(self).fed(),
            final(self).snap_fed() == old(self).snap_fed().insert(tick, old(self).fed()),
            final(self).simulation() == old(self).simulation(),
    {
        let snap = FrameSnapshot {
            tick,
            state: self.sim.serialize(),
            rng_state: self.sim.rng_state(),
            checksum: self.sim.checksum(),
        };
        let ghost sn = snap;
        self.snapshots.push(snap);
        self.snap_fed = Ghost(self.snap_fed@.insert(tick, self.fed@));
        assert(self.snaps() == pushed(old(self).snaps().0, old(self).snaps().1, old(self).snaps().2, sn));
    }

    /// Advances one tick with the inputs at hand, predicting the missing
    /// ones: confirms the inputs received, predicts one input for each
    /// player without one, saves a snapshot, steps the simulation and logs
    /// the inputs of the tick.
    pub fn advance(&mut self, confirmed_inputs: Vec<RawInput>)
        requires
            old(self).now() < u64::MAX,
            old(self).predictions().0 + predicted_for_missing(
                confirmed_inputs@,
                confirm_all(old(self).last_inputs(), confirmed_inputs@),
                old(self).players() as int,
                old(self).now(),
            ).len() <= u64::MAX,
        ensures
            ({
                let last = confirm_all(old(self).last_inputs(), confirmed_inputs@);
                let predicted = predicted_for_missing(
                    confirmed_inputs@,
                    last,
                    old(self).players() as int,
                    old(self).now(),
                );
                &&& final(self).now() == old(self).now() + 1
                &&& final(self).log() == old(self).log().insert(
                    old(self).now(),
                    seq_views(confirmed_inputs@) + predicted,
                )
                &&& final(self).last_inputs() == last
                &&& final(self).history() == (
                    old(self).history().0,
                    old(self).history().1.push(seq_views(confirmed_inputs@) + predicted),
                )
                &&& final(self).fed() == old(self).fed().push(seq_views(confirmed_inputs@) + predicted)
                &&& final(self).predictions() == (
                    (old(self).predictions().0 + predicted.len()) as u64,
                    old(self).predictions().1,
                )
            }),
            exists|sn: FrameSnapshot|
                sn.tick == old(self).now() && #[trigger] final(self).snaps() == pushed(
                    old(self).snaps().0,
                    old(self).snaps().1,
                    old(self).snaps().2,
                    sn,
                ),
            final(self).late() == old(self).late(),
            final(self).snap_fed() == old(self).snap_fed().insert(old(self).now(), old(self).fed()),
            old(self).consistent() ==> final(self).consistent(),
            final(self).rollbacks() == old(self).rollbacks(),
            final(self).players() == old(self).players(),
            final(self).confirmed() == old(self).confirmed(),
    {
        let tick = self.current_tick;
        let ghost last0 = self.last_inputs();
        let ghost conf = confirmed_inputs@;
        let mut i: usize = 0;
        while i < confirmed_inputs.len()
            invariant
                i <= conf.len(),
                conf == confirmed_inputs@,
                self.last_inputs() == confirm_all(last0, conf.subrange(0, i as int)),
                self.now() == old(self).now(),
                self.log() == old(self).log(),
                self.late() == old(self).late(),
                self.predictions() == old(self).predictions(),
                self.rollbacks() == old(self).rollbacks(),
                self.players() == old(self).players(),
                self.confirmed() == old(self).confirmed(),
                self.snaps() == old(self).snaps(),
                self.history() == old(self).history(),
                self.fed() == old(self).fed(),
                self.snap_fed() == old(self).snap_fed(),
                self.simulation() == old(self).simulation(),
            decreases conf.len() - i,
        {
            let c = confirmed_inputs[i].clone();
            let ghost before = self.predictor.last();
            self.predictor.confirm(c);
            proof {
                assert(conf.subrange(0, i + 1).drop_last() =~= conf.subrange(0, i as int));
                assert(views(before.insert(c.player_id, c)) =~= views(before).insert(
                    c.player_id,
                    raw_view(c),
                ));
            }
            i = i + 1;
        }
        proof {
            assert(conf.subrange(0, conf.len() as int) =~= conf);
        }
        let ghost last1 = self.last_inputs();
        let mut confirmed_ids: Vec<u8> = Vec::new();
        let mut j: usize = 0;
        while j < confirmed_inputs.len()
            invariant
                j <= conf.len(),
                conf == confirmed_inputs@,
                confirmed_ids@.len() == j,
                forall|k: int| 0 <= k < j ==> confirmed_ids@[k] == conf[k].player_id,
            decreases conf.len() - j,
        {
            confirmed_ids.push(confirmed_inputs[j].player_id);
            j = j + 1;
        }
        let mut all_inputs = confirmed_inputs;
        let mut pid: u8 = 0;
        let n = self.player_count;
        let ghost made0 = self.predictor.made();
        while pid < n
            invariant
                pid <= n,
                n == self.players(),
                self.confirmed() == old(self).confirmed(),
                confirmed_ids@.len() == conf.len(),
                forall|k: int| 0 <= k < conf.len() ==> confirmed_ids@[k] == conf[k].player_id,
                seq_views(all_inputs@) == seq_views(conf) + predicted_for_missing(
                    conf,
                    last1,
                    pid as int,
                    tick,
                ),
                self.predictor.made() == made0 + predicted_for_missing(conf, last1, pid as int, tick).len(),
                made0 + predicted_for_missing(conf, last1, n as int, tick).len() <= u64::MAX,
                tick == old(self).now(),
                self.last_inputs() == last1,
                self.predictions().1 == old(self).predictions().1,
                made0 == old(self).predictions().0,
                self.now() == old(self).now(),
                self.log() == old(self).log(),
                self.late() == old(self).late(),
                self.rollbacks() == old(self).rollbacks(),
                self.snaps() == old(self).snaps(),
                self.history() == old(self).history(),
                self.fed() == old(self).fed(),
                self.snap_fed() == old(self).snap_fed(),
                self.simulation() == old(self).simulation(),
            decreases n - pid,
        {
            let ghost before = all_inputs@;
            proof {
                lemma_predicted_len_mono(conf, last1, pid + 1, n as int, tick);
            }
            if !contains_u8(&confirmed_ids, pid) {
                proof {
                    assert forall|jj: int| 0 <= jj < conf.len() implies conf[jj].player_id != pid by {
                        assert(confirmed_ids@[jj] == conf[jj].player_id);
                    }
                    assert(!has_pid(conf, pid));
                }
                let p = self.predictor.predict(pid, tick);
                all_inputs.push(p);
                proof {
                    assert(seq_views(all_inputs@) =~= seq_views(before).push(raw_view(p)));
                }
            } else {
                proof {
                    let k = choose|k: int| 0 <= k < confirmed_ids@.len() && confirmed_ids@[k] == pid;
                    assert(conf[k].player_id == pid);
                    assert(has_pid(conf, pid));
                }
            }
            pid = pid + 1;
        }
        self.save_snapshot(tick);
        self.sim.step(all_inputs.as_slice());
        self.history = Ghost((self.history@.0, self.history@.1.push(seq_views(all_inputs@))));
        self.fed = Ghost(self.fed@.push(seq_views(all_inputs@)));
        let ghost logged = all_inputs@;
        self.input_log.insert(tick, all_inputs);
        self.current_tick = self.current_tick + 1;
        proof {
            assert(self.log() =~= old(self).log().insert(tick, seq_views(logged)));
            if old(self).consistent() {
                let log0 = old(self).log();
                let log1 = self.log();
                let os = old(self).snaps();
                let sn = choose|sn: FrameSnapshot|
                    sn.tick == tick && #[trigger] self.snaps() == pushed(os.0, os.1, os.2, sn);
                lemma_pushed_window_ok(os.0, os.1, os.2, sn);
                assert forall|t: int| 0 <= t < tick implies #[trigger] logged_at(log1, t) == logged_at(
                    log0,
                    t,
                ) by {}
                lemma_replayed_agree(log1, log0, tick);
                lemma_replayed_push(log1, tick);
                assert(logged_at(log1, tick as int) == seq_views(logged));
                let ns = self.snaps();
                assert forall|t: u64| #[trigger] lookup(ns.0, ns.1, ns.2, t) is Some implies t
                    < self.now() && self.snap_fed().contains_key(t) && self.snap_fed()[t]
                    == replayed(self.log(), 0, t) by {
                    if t != tick {
                        lemma_push_only_adds(os.0, os.1, os.2, sn, t);
                        assert(lookup(os.0, os.1, os.2, t) is Some);
                        assert forall|u: int| 0 <= u < t implies #[trigger] logged_at(log1, u)
                            == logged_at(log0, u) by {}
                        lemma_replayed_agree(log1, log0, t);
                    }
                }
            }
        }
    }

    /// Receives a remote input, possibly late. A late input that differs
    /// from what was predicted for its tick is queued for a rollback; an
    /// input for the current or a future tick is logged.
    pub fn receive_remote_input(&mut self, input: RawInput)
        requires
            old(self).predictions().1 < u64::MAX,
        ensures
            final(self).last_inputs() == old(self).last_inputs().insert(
                input.player_id,
                raw_view(input),
            ),
            final(self).now() == old(self).now(),
            final(self).rollbacks() == old(self).rollbacks(),
            final(self).players() == old(self).players(),
            final(self).confirmed() == old(self).confirmed(),
            final(self).snaps() == old(self).snaps(),
            final(self).history() == old(self).history(),
            final(self).fed() == old(self).fed(),
            final(self).snap_fed() == old(self).snap_fed(),
            final(self).simulation() == old(self).simulation(),
            old(self).consistent() ==> final(self).consistent(),
            final(self).predictions().0 == old(self).predictions().0,
            input.tick >= old(self).now() ==> {
                &&& final(self).log() == old(self).log().insert(
                    input.tick,
                    (if old(self).log().contains_key(input.tick) {
                        old(self).log()[input.tick]
                    } else {
                        Seq::empty()
                    }).push(raw_view(input)),
                )
                &&& final(self).late() == old(self).late()
                &&& final(self).predictions().1 == old(self).predictions().1
            },
            input.tick < old(self).now() ==> {
                let logged = old(self).log()[input.tick];
                let mis = old(self).log().contains_key(input.tick) && has_view_pid(
                    logged,
                    input.player_id,
                ) && logged[first_of(logged, input.player_id)].2 != input.data@;
                &&& final(self).log() == old(self).log()
                &&& final(self).late() == if mis {
                    old(self).late().push(raw_view(input))
                } else {
                    old(self).late()
                }
                &&& final(self).predictions().1 == old(self).predictions().1 + if mis {
                    1int
                } else {
                    0int
                }
            },
    {
        let tick = input.tick;
        let c = input.clone();
        let ghost before = self.predictor.last();
        self.predictor.confirm(c);
        proof {
            assert(views(before.insert(c.player_id, c)) =~= views(before).insert(
                c.player_id,
                raw_view(c),
            ));
        }
        if tick < self.current_tick {
            match self.input_log.get(&tick) {
                Some(existing) => {
                    match position_of(existing, input.player_id) {
                        Some(idx) => {
                            proof {
                                lemma_first_of(existing@, input.player_id, idx as int);
                                assert(self.log()[tick] == seq_views(existing@));
                            }
                            if self.predictor.check_prediction(&existing[idx], &input) {
                                let ghost l0 = self.pending_late@;
                                self.pending_late.push(input);
                                proof {
                                    assert(seq_views(self.pending_late@) =~= seq_views(l0).push(
                                        raw_view(input),
                                    ));
                                }
                            }
                        },
                        None => {
                            proof {
                                assert(self.log()[tick] == seq_views(existing@));
                                assert(!has_view_pid(self.log()[tick], input.player_id));
                            }
                        },
                    }
                },
                None => {},
            }
        } else {
            let ghost m0 = self.input_log@;
            let mut v = match self.input_log.remove(&tick) {
                Some(v) => v,
                None => Vec::new(),
            };
            let ghost v0 = v@;
            assert(seq_views(v0) == (if old(self).log().contains_key(tick) {
                old(self).log()[tick]
            } else {
                Seq::empty()
            }));
            v.push(input);
            let ghost vf = v;
            self.input_log.insert(tick, v);
            proof {
                assert(self.input_log@ =~= m0.insert(tick, vf));
                assert(vf@ == v0.push(input));
                assert(seq_views(v0.push(input)) =~= seq_views(v0).push(raw_view(input)));
                assert(self.log() =~= old(self).log().insert(
                    tick,
                    (if old(self).log().contains_key(tick) {
                        old(self).log()[tick]
                    } else {
                        Seq::empty()
                    }).push(raw_view(input)),
                ));
            }
        }
        proof {
            if old(self).consistent() {
                let log0 = old(self).log();
                let log1 = self.log();
                let ss = self.snaps();
                assert forall|t: int| 0 <= t < self.now() implies #[trigger] logged_at(log1, t)
                    == logged_at(log0, t) by {}
                lemma_replayed_agree(log1, log0, self.now());
                assert forall|t: u64| #[trigger] lookup(ss.0, ss.1, ss.2, t) is Some implies t
                    < self.now() && self.snap_fed().contains_key(t) && self.snap_fed()[t]
                    == replayed(self.log(), 0, t) by {
                    assert forall|u: int| 0 <= u < t implies #[trigger] logged_at(log1, u)
                        == logged_at(log0, u) by {}
                    lemma_replayed_agree(log1, log0, t);
                }
                assert forall|k: int| 0 <= k < self.late().len() implies #[trigger] self.late()[k].1
                    < self.now() by {
                    if k < old(self).late().len() {
                        assert(self.late()[k] == old(self).late()[k]);
                    }
                }
            }
        }
    }

    /// Handles pending rollbacks; call once per frame. The logged
    /// predictions are replaced by the late inputs, then the simulation is
    /// restored to the oldest late tick and re-run. When that snapshot is
    /// still held, rollback is transparent: the session stays `consistent`,
    /// its simulation fed exactly the corrected inputs of every tick.
    pub fn process_rollbacks(&mut self)
        requires
            old(self).rollbacks() < u64::MAX,
        ensures
            final(self).late().len() == 0,
            old(self).late().len() == 0 ==> final(self).log() == old(self).log()
                && final(self).rollbacks() == old(self).rollbacks(),
            old(self).late().len() > 0 ==> final(self).log() == replace_all(
                old(self).log(),
                old(self).late(),
            ) && final(self).rollbacks() == old(self).rollbacks() + if lookup(
                old(self).snaps().0,
                old(self).snaps().1,
                old(self).snaps().2,
                min_tick(old(self).late()),
            ) is Some {
                1int
            } else {
                0int
            },
            final(self).now() == old(self).now(),
            final(self).last_inputs() == old(self).last_inputs(),
            final(self).predictions() == old(self).predictions(),
            final(self).players() == old(self).players(),
            final(self).confirmed() == old(self).confirmed(),
            (old(self).late().len() == 0 || lookup(
                old(self).snaps().0,
                old(self).snaps().1,
                old(self).snaps().2,
                min_tick(old(self).late()),
            ) is None) ==> final(self).snaps() == old(self).snaps() && final(self).fed() == old(
                self,
            ).fed() && final(self).snap_fed() == old(self).snap_fed() && final(self).simulation()
                == old(self).simulation(),
            old(self).consistent() && (old(self).late().len() == 0 || lookup(
                old(self).snaps().0,
                old(self).snaps().1,
                old(self).snaps().2,
                min_tick(old(self).late()),
            ) is Some) ==> final(self).consistent(),
            old(self).late().len() == 0 ==> final(self).history() == old(self).history(),
            old(self).late().len() > 0 ==> match lookup(
                old(self).snaps().0,
                old(self).snaps().1,
                old(self).snaps().2,
                min_tick(old(self).late()),
            ) {
                Some(sn) => final(self).history() == (
                    Some(sn.state@),
                    replayed(final(self).log(), min_tick(old(self).late()), old(self).now()),
                ),
                None => final(self).history() == old(self).history(),
            },
    {
        if self.pending_late.len() == 0 {
            proof {
                assert(self.late() =~= Seq::<RawView>::empty());
            }
            return ;
        }
        let ghost late0 = self.late();
        // The oldest tick that needs a rollback.
        let mut oldest = self.pending_late[0].tick;
        let mut i: usize = 1;
        while i < self.pending_late.len()
            invariant
                1 <= i <= self.pending_late@.len(),
                late0 == seq_views(self.pending_late@),
                oldest == min_tick(late0.subrange(0, i as int)),
            decreases self.pending_late@.len() - i,
        {
            proof {
                assert(late0.subrange(0, i + 1).drop_last() =~= late0.subrange(0, i as int));
            }
            if self.pending_late[i].tick < oldest {
                oldest = self.pending_late[i].tick;
            }
            i = i + 1;
        }
        proof {
            assert(late0.subrange(0, late0.len() as int) =~= late0);
        }
        // Replace the predicted inputs by the confirmed ones in the log.
        let mut late: Vec<RawInput> = Vec::new();
        std::mem::swap(&mut late, &mut self.pending_late);
        let mut j: usize = 0;
        while j < late.len()
            invariant
                j <= late@.len(),
                late0 == seq_views(late@),
                self.log() == replace_all(old(self).log(), late0.subrange(0, j as int)),
                self.now() == old(self).now(),
                self.last_inputs() == old(self).last_inputs(),
                self.predictions() == old(self).predictions(),
                self.players() == old(self).players(),
                self.confirmed() == old(self).confirmed(),
                self.snaps() == old(self).snaps(),
                self.rollbacks() == old(self).rollbacks(),
                self.history() == old(self).history(),
                self.fed() == old(self).fed(),
                self.snap_fed() == old(self).snap_fed(),
                self.simulation() == old(self).simulation(),
                self.pending_late@.len() == 0,
            decreases late@.len() - j,
        {
            let input = late[j].clone();
            let t = input.tick;
            let ghost r = raw_view(input);
            let ghost log0 = self.log();
            let ghost m0 = self.input_log@;
            proof {
                assert(late0.subrange(0, j + 1).drop_last() =~= late0.subrange(0, j as int));
                assert(late0[j as int] == r);
            }
            match self.input_log.remove(&t) {
                Some(mut logged) => {
                    let ghost before = logged@;
                    assert(seq_views(before) == log0[r.1]);
                    match position_of(&logged, input.player_id) {
                        Some(idx) => {
                            proof {
                                lemma_first_of(before, input.player_id, idx as int);
                            }
                            logged.set(idx, input);
                            proof {
                                assert(seq_views(logged@) =~= seq_views(before).update(
                                    idx as int,
                                    r,
                                ));
                            }
                        },
                        None => {
                            proof {
                                assert(!has_view_pid(seq_views(before), input.player_id));
                            }
                        },
                    }
                    let ghost lf = logged;
                    self.input_log.insert(t, logged);
                    proof {
                        assert(self.input_log@ =~= m0.insert(r.1, lf));
                        assert(self.log() =~= replace_logged(log0, r));
                    }
                },
                None => {
                    proof {
                        assert(self.input_log@ =~= m0);
                        assert(self.log() =~= replace_logged(log0, r));
                    }
                },
            }
            j = j + 1;
        }
        proof {
            assert(late0.subrange(0, late0.len() as int) =~= late0);
            assert(self.late() =~= Seq::<RawView>::empty());
            if old(self).consistent() {
                lemma_min_tick_le(late0);
                let ss = self.snaps();
                assert forall|t: u64| #[trigger] lookup(ss.0, ss.1, ss.2, t) is Some implies t
                    < self.now() && self.snap_fed().contains_key(t) && (t <= oldest
                    ==> self.snap_fed()[t] == replayed(self.log(), 0, t)) by {
                    if t <= oldest {
                        assert forall|u: int| 0 <= u < t implies #[trigger] logged_at(self.log(), u)
                            == logged_at(old(self).log(), u) by {
                            lemma_replace_all_below(old(self).log(), late0, u);
                        }
                        lemma_replayed_agree(self.log(), old(self).log(), t);
                    }
                }
                assert(self.replay_ready(oldest));
            }
        }
        self.rollback_to(oldest);
    }

    /// Restores the snapshot of `target_tick` and re-simulates up to the
    /// current tick with the logged inputs, saving each re-simulated tick's
    /// snapshot again so that a later correction starts from corrected
    /// state. Nothing happens when that snapshot is gone.
    fn rollback_to(&mut self, target_tick: u64)
        requires
            old(self).rollbacks() < u64::MAX,
        ensures
            final(self).rollbacks() == old(self).rollbacks() + if lookup(
                old(self).snaps().0,
                old(self).snaps().1,
                old(self).snaps().2,
                target_tick,
            ) is Some {
                1int
            } else {
                0int
            },
            final(self).now() == old(self).now(),
            final(self).log() == old(self).log(),
            final(self).late() == old(self).late(),
            final(self).last_inputs() == old(self).last_inputs(),
            final(self).predictions() == old(self).predictions(),
            final(self).players() == old(self).players(),
            final(self).confirmed() == old(self).confirmed(),
            match lookup(old(self).snaps().0, old(self).snaps().1, old(self).snaps().2, target_tick) {
                Some(sn) => old(self).replay_ready(target_tick) ==> final(self).consistent(),
                None => final(self).snaps() == old(self).snaps() && final(self).fed() == old(
                    self,
                ).fed() && final(self).snap_fed() == old(self).snap_fed() && final(self).simulation()
                    == old(self).simulation(),
            },
            match lookup(old(self).snaps().0, old(self).snaps().1, old(self).snaps().2, target_tick) {
                Some(sn) => final(self).history() == (
                    Some(sn.state@),
                    replayed(old(self).log(), target_tick, old(self).now()),
                ),
                None => final(self).history() == old(self).history(),
            },
    {
        let snapshot = match self.snapshots.get(target_tick) {
            Some(s) => s,
            None => {
                return ;
            },
        };
        self.sim = S::deserialize(snapshot.state.as_slice());
        let ghost origin = snapshot.state@;
        self.history = Ghost((Some(origin), Seq::empty()));
        self.fed = Ghost(self.snap_fed@[target_tick]);
        let ghost ready = old(self).replay_ready(target_tick);
        self.rollback_count = self.rollback_count + 1;
        let end_tick = self.current_tick;
        let mut tick = target_tick;
        while tick < end_tick
            invariant
                end_tick == self.current_tick,
                self.rollbacks() == old(self).rollbacks() + 1,
                self.now() == old(self).now(),
                self.log() == old(self).log(),
                self.late() == old(self).late(),
                self.last_inputs() == old(self).last_inputs(),
                self.predictions() == old(self).predictions(),
                self.players() == old(self).players(),
                self.confirmed() == old(self).confirmed(),
                ready == old(self).replay_ready(target_tick),
                ready ==> lookup(
                    old(self).snaps().0,
                    old(self).snaps().1,
                    old(self).snaps().2,
                    target_tick,
                ) is Some,
                ready ==> window_ok(self.snaps().0, self.snaps().1, self.snaps().2),
                ready ==> self.snaps().2 <= self.now(),
                ready ==> self.fed() == replayed(self.log(), 0, tick),
                ready ==> forall|t: u64|
                    #[trigger] lookup(self.snaps().0, self.snaps().1, self.snaps().2, t) is Some ==> t
                        < self.now() && self.snap_fed().contains_key(t) && ((t <= target_tick || t
                        < tick) ==> self.snap_fed()[t] == replayed(self.log(), 0, t)),
                target_tick <= tick,
                target_tick <= end_tick ==> tick <= end_tick,
                target_tick > end_tick ==> tick == target_tick,
                self.history() == (Some(origin), replayed(self.log(), target_tick, tick)),
            decreases end_tick - tick,
        {
            let inputs = match self.input_log.get(&tick) {
                Some(v) => clone_inputs(v),
                None => Vec::new(),
            };
            proof {
                assert(seq_views(inputs@) =~= logged_at(self.log(), tick as int));
            }
            let ghost os = self.snaps();
            self.save_snapshot(tick);
            proof {
                if ready {
                    let sn = choose|sn: FrameSnapshot|
                        sn.tick == tick && #[trigger] self.snaps() == pushed(os.0, os.1, os.2, sn);
                    lemma_pushed_window_ok(os.0, os.1, os.2, sn);
                    let ns = self.snaps();
                    assert forall|t: u64| #[trigger] lookup(ns.0, ns.1, ns.2, t) is Some implies t
                        < self.now() && self.snap_fed().contains_key(t) && ((t <= target_tick || t
                        < tick + 1) ==> self.snap_fed()[t] == replayed(self.log(), 0, t)) by {
                        if t != tick {
                            lemma_push_only_adds(os.0, os.1, os.2, sn, t);
                        }
                    }
                    lemma_replayed_push(self.log(), tick);
                }
            }
            self.sim.step(inputs.as_slice());
            proof {
                assert(replayed(self.log(), target_tick, (tick + 1) as u64) =~= replayed(
                    self.log(),
                    target_tick,
                    tick,
                ).push(logged_at(self.log(), tick as int)));
            }
            self.history = Ghost((Some(origin), self.history@.1.push(seq_views(inputs@))));
            self.fed = Ghost(self.fed@.push(seq_views(inputs@)));
            tick = tick + 1;
        }
        proof {
            assert(replayed(self.log(), target_tick, tick) =~= replayed(
                self.log(),
                target_tick,
                end_tick,
            ));
        }
    }

    pub fn current_tick(&self) -> (r: u64)
        ensures
            r == self.now(),
    {
        self.current_tick
    }

    pub fn confirmed_tick(&self) -> (r: u64)
        ensures
            r == self.confirmed(),
    {
        self.confirmed_tick
    }

    /// Predictions made and predictions found wrong.
    pub fn prediction_counts(&self) -> (r: (u64, u64))
        ensures
            r == self.predictions(),
    {
        self.predictor.counts()
    }

    pub fn sim(&self) -> (r: &S)
        ensures
            *r == self.simulation(),
    {
        &self.sim
    }

    /// Checksum of the current state, to broadcast for verification.
    pub fn checksum(&self) -> (r: u64)
        ensures
            call_ensures(S::checksum, (&self.simulation(),), r),
    {
        self.sim.checksum()
    }
}

/// After a tick advances, every player `0..n` has an input logged for it:
/// its confirmed input, or else a prediction.
pub proof fn law_every_player_has_input(
    confirmed: Seq<RawInput>,
    last: Map<u8, RawView>,
    n: int,
    tick: u64,
    pid: u8,
)
    requires
        0 <= pid < n <= 256,
    ensures
        has_view_pid(seq_views(confirmed) + predicted_for_missing(confirmed, last, n, tick), pid),
    decreases n,
{
    let all = seq_views(confirmed) + predicted_for_missing(confirmed, last, n, tick);
    if has_pid(confirmed, pid) {
        let j = choose|j: int| 0 <= j < confirmed.len() && confirmed[j].player_id == pid;
        assert(all[j].0 == pid);
    } else if pid == n - 1 {
        let p = predicted_for_missing(confirmed, last, n, tick);
        assert(p.last().0 == pid);
        assert(all[all.len() - 1].0 == pid);
    } else {
        law_every_player_has_input(confirmed, last, n - 1, tick, pid);
        let prev = seq_views(confirmed) + predicted_for_missing(confirmed, last, n - 1, tick);
        let i = choose|i: int| 0 <= i < prev.len() && prev[i].0 == pid;
        assert(all[i] == prev[i]);
    }
}

} // verus!
