//! Clock synchronisation between peers (Cristian's algorithm), so that every
//! peer agrees on the current tick. The ping/pong exchange itself runs in the
//! application; the arithmetic and the choice of sample are here.
use vstd::prelude::*;

use std::time::Instant;

use crate::game::base::types::trunc_div;
use crate::net::instant::{
    duration_micros, duration_millis, instant_elapsed, instant_now, since_epoch, system_now,
};
use crate::net::protocol::NetMessage;

verus! {

pub const TICK_RATE: u64 = 60;

/// Microseconds per tick (16 667, a second over 60 rounded up).
pub const TICK_DUS: u64 = 16667;

pub const SYNC_SAMPLES: usize = 16;

pub const RESYNC_SECS: u64 = 30;

/// One clock-sync sample (a complete ping/pong).
#[derive(Debug, Clone, Copy)]
pub struct ClockSample {
    /// Round trip without the coordinator's processing time.
    pub rtt_us: u64,
    /// Estimated difference between our clock and the coordinator's;
    /// positive when ours is behind.
    pub offset_us: i64,
}

/// Synchronisation computed from a set of samples.
#[derive(Debug, Clone, Copy)]
pub struct ClockSync {
    pub offset_us: i64,
    pub rtt_us: u64,
    pub sample_count: u32,
    pub synced_at: Instant,
}

impl ClockSync {
    /// Initial sync with no adjustment, before the first real sync.
    pub fn zero() -> (r: ClockSync)
        ensures
            r.offset_us == 0,
            r.rtt_us == 0,
            r.sample_count == 0,
    {
        ClockSync { offset_us: 0, rtt_us: 0, sample_count: 0, synced_at: instant_now() }
    }

    /// Whether the resync interval has passed since this sync: the time
    /// elapsed is read from the clock, then `resync_due` decides.
    pub fn needs_resync(&self) -> bool {
        let elapsed_ms = duration_millis(&instant_elapsed(&self.synced_at));
        resync_due(elapsed_ms)
    }
}

/// A resync is due once 30 seconds have passed since the last sync.
pub fn resync_due(elapsed_ms: u128) -> (r: bool)
    ensures
        r == (elapsed_ms >= 30_000),
{
    elapsed_ms >= RESYNC_SECS as u128 * 1000
}

pub open spec fn sat_sub(a: u64, b: u64) -> u64 {
    if a >= b {
        (a - b) as u64
    } else {
        0
    }
}

/// The differences measure_sample takes fit in an `i64` (its arithmetic
/// overflows otherwise).
pub open spec fn sample_fits(t1: u64, t2: u64, t3: u64, t4: u64) -> bool {
    let a = (t2 as i64) - (t1 as i64);
    let b = (t3 as i64) - (t4 as i64);
    &&& i64::MIN <= a <= i64::MAX
    &&& i64::MIN <= b <= i64::MAX
    &&& i64::MIN <= a + b <= i64::MAX
}

/// A clock-sync sample from the four timestamps: t1 ping sent (ours), t2
/// ping received and t3 pong sent (coordinator's), t4 pong received (ours).
pub fn measure_sample(t1: u64, t2: u64, t3: u64, t4: u64) -> (r: ClockSample)
    requires
        sample_fits(t1, t2, t3, t4),
    ensures
        r.rtt_us == sat_sub(sat_sub(t4, t1), sat_sub(t3, t2)),
        r.offset_us == trunc_div((t2 as i64 - t1 as i64) + (t3 as i64 - t4 as i64), 2),
{
    let processing = t3.saturating_sub(t2);
    let rtt_us = (t4.saturating_sub(t1)).saturating_sub(processing);
    let offset_us = ((t2 as i64 - t1 as i64) + (t3 as i64 - t4 as i64)) / 2;
    ClockSample { rtt_us, offset_us }
}

/// Whether the timestamps of a sample can be measured.
pub fn sample_in_range(t1: u64, t2: u64, t3: u64, t4: u64) -> (r: bool)
    ensures
        r == sample_fits(t1, t2, t3, t4),
{
    let a = t2 as i64 as i128 - t1 as i64 as i128;
    let b = t3 as i64 as i128 - t4 as i64 as i128;
    a >= i64::MIN as i128 && a <= i64::MAX as i128 && b >= i64::MIN as i128 && b <= i64::MAX as i128
        && a + b >= i64::MIN as i128 && a + b <= i64::MAX as i128
}

/// `slice::sort_unstable` on `u64`: the same values in ascending order.
#[verifier::external_body]
fn sort_u64(v: &mut Vec<u64>)
    ensures
        final(v)@.to_multiset() == old(v)@.to_multiset(),
        forall|i: int, j: int| 0 <= i <= j < final(v)@.len() ==> final(v)@[i] <= final(v)@[j],
{
    v.sort_unstable();
}

pub open spec fn sat_triple(x: u64) -> u64 {
    if 3 * x > u64::MAX {
        u64::MAX
    } else {
        (3 * x) as u64
    }
}

/// Index of the sample with the smallest round trip among the first `n`
/// with a round trip at most `threshold`; the earliest on ties.
pub open spec fn best_sample(s: Seq<ClockSample>, threshold: u64, n: int) -> Option<int>
    decreases n,
{
    if n <= 0 {
        None
    } else {
        let prev = best_sample(s, threshold, n - 1);
        if s[n - 1].rtt_us <= threshold && (prev is None || s[n - 1].rtt_us < s[prev->0].rtt_us) {
            Some(n - 1)
        } else {
            prev
        }
    }
}

pub open spec fn rtts_of(s: Seq<ClockSample>) -> Seq<u64> {
    s.map_values(|c: ClockSample| c.rtt_us)
}

/// `sorted` is `v` in ascending order.
pub open spec fn sorted_version(v: Seq<u64>, sorted: Seq<u64>) -> bool {
    &&& sorted.to_multiset() == v.to_multiset()
    &&& forall|i: int, j: int| 0 <= i <= j < sorted.len() ==> sorted[i] <= sorted[j]
}

proof fn lemma_best_sample_range(s: Seq<ClockSample>, threshold: u64, n: int)
    requires
        n <= s.len(),
    ensures
        best_sample(s, threshold, n) matches Some(i) ==> 0 <= i < n,
    decreases n,
{
    if n > 0 {
        lemma_best_sample_range(s, threshold, n - 1);
    }
}

proof fn lemma_best_sample_least(s: Seq<ClockSample>, threshold: u64, n: int)
    requires
        0 <= n <= s.len(),
    ensures
        best_sample(s, threshold, n) matches Some(i) ==> {
            &&& 0 <= i < n
            &&& s[i].rtt_us <= threshold
            &&& forall|k: int| 0 <= k < n && s[k].rtt_us <= threshold ==> s[i].rtt_us <= s[k].rtt_us
        },
        (exists|k: int| 0 <= k < n && s[k].rtt_us <= threshold) ==> best_sample(s, threshold, n) is Some,
    decreases n,
{
    if n > 0 {
        lemma_best_sample_least(s, threshold, n - 1);
    }
}

/// The sample `compute_sync` keeps is always one of least round trip among
/// all samples: that one is never above three times the median, so the
/// outlier filter never drops it.
pub proof fn law_sync_takes_fastest_sample(s: Seq<ClockSample>, sorted: Seq<u64>)
    requires
        s.len() > 0,
        sorted_version(rtts_of(s), sorted),
    ensures
        best_sample(s, sat_triple(sorted[(s.len() / 2) as int]), s.len() as int) matches Some(i) && (
        forall|k: int| 0 <= k < s.len() ==> s[i].rtt_us <= #[trigger] s[k].rtt_us),
{
    broadcast use vstd::seq_lib::group_to_multiset_ensures;

    let r = rtts_of(s);
    let n = s.len() as int;
    let threshold = sat_triple(sorted[n / 2]);
    assert(sorted.len() == r.len()) by {
        assert(sorted.to_multiset().len() == r.to_multiset().len());
    }
    // the median is one of the round trips
    let med = sorted[n / 2];
    assert(sorted.contains(med));
    assert(r.to_multiset().count(med) > 0);
    assert(r.contains(med));
    let p = choose|p: int| 0 <= p < r.len() && r[p] == med;
    assert(s[p].rtt_us == med);
    assert(s[p].rtt_us <= threshold);
    lemma_best_sample_least(s, threshold, n);
    let i = best_sample(s, threshold, n)->0;
    assert forall|j: int| 0 <= j < n implies s[i].rtt_us <= #[trigger] s[j].rtt_us by {
        if s[j].rtt_us > threshold {
            assert(s[i].rtt_us <= threshold);
        }
    }
}

proof fn lemma_best_sample_first(s: Seq<ClockSample>, threshold: u64, n: int)
    requires
        0 <= n <= s.len(),
    ensures
        best_sample(s, threshold, n) matches Some(i) ==> forall|k: int|
            0 <= k < i ==> s[k].rtt_us > threshold || s[k].rtt_us > #[trigger] s[i].rtt_us,
    decreases n,
{
    if n > 0 {
        lemma_best_sample_first(s, threshold, n - 1);
        lemma_best_sample_least(s, threshold, n - 1);
    }
}

/// The sync that samples give is that of the first sample of least round
/// trip among all of them, with the number of samples.
pub proof fn law_sync_is_first_fastest(s: Seq<ClockSample>, r: ClockSync)
    requires
        s.len() > 0,
        synced_from(s, r),
    ensures
        exists|i: int|
            0 <= i < s.len() && (forall|k: int| 0 <= k < s.len() ==> s[i].rtt_us <= #[trigger] s[k].rtt_us)
                && (forall|k: int| 0 <= k < i ==> s[i].rtt_us < #[trigger] s[k].rtt_us) && r.rtt_us
                == s[i].rtt_us && r.offset_us == s[i].offset_us,
        r.sample_count == s.len() as u32,
{
    let sorted = choose|sorted: Seq<u64>| sorted_version(rtts_of(s), sorted) && {
        let threshold = sat_triple(sorted[(s.len() / 2) as int]);
        let best = match best_sample(s, threshold, s.len() as int) {
            Some(i) => s[i],
            None => s[0],
        };
        &&& r.offset_us == best.offset_us
        &&& r.rtt_us == best.rtt_us
    };
    let n = s.len() as int;
    let threshold = sat_triple(sorted[n / 2]);
    law_sync_takes_fastest_sample(s, sorted);
    lemma_best_sample_least(s, threshold, n);
    lemma_best_sample_first(s, threshold, n);
    let i = best_sample(s, threshold, n)->0;
    assert forall|k: int| 0 <= k < i implies s[i].rtt_us < #[trigger] s[k].rtt_us by {
        assert(s[i].rtt_us <= s[k].rtt_us);
        if s[k].rtt_us > threshold {
            assert(s[i].rtt_us <= threshold);
        }
    }
}

/// `r` is the sync the samples `s` give: offset and round trip of the
/// sample with the smallest round trip within three times the median (the
/// first sample when none is), and the number of samples.
pub open spec fn synced_from(s: Seq<ClockSample>, r: ClockSync) -> bool {
    &&& exists|sorted: Seq<u64>|
        #![trigger sorted_version(rtts_of(s), sorted)]
        sorted_version(rtts_of(s), sorted) && {
            let threshold = sat_triple(sorted[(s.len() / 2) as int]);
            let best = match best_sample(s, threshold, s.len() as int) {
                Some(i) => s[i],
                None => s[0],
            };
            &&& r.offset_us == best.offset_us
            &&& r.rtt_us == best.rtt_us
        }
    &&& r.sample_count == s.len() as u32
}

/// Aggregates the samples: the sample with the smallest round trip among
/// those within three times the median round trip (outliers of jitter are
/// dropped) gives the offset. There must be at least one sample.
pub fn compute_sync(samples: &[ClockSample]) -> (r: ClockSync)
    requires
        samples@.len() > 0,
    ensures
        synced_from(samples@, r),
{
    let mut rtts: Vec<u64> = Vec::new();
    let mut i: usize = 0;
    while i < samples.len()
        invariant
            i <= samples@.len(),
            rtts@ =~= rtts_of(samples@).subrange(0, i as int),
        decreases samples@.len() - i,
    {
        rtts.push(samples[i].rtt_us);
        i = i + 1;
    }
    proof {
        assert(rtts_of(samples@).subrange(0, samples@.len() as int) =~= rtts_of(samples@));
    }
    let ghost unsorted = rtts@;
    sort_u64(&mut rtts);
    proof {
        vstd::seq_lib::to_multiset_len(unsorted);
        vstd::seq_lib::to_multiset_len(rtts@);
        assert(rtts@.len() == samples@.len());
    }
    let median_rtt = rtts[rtts.len() / 2];
    let threshold = if median_rtt > u64::MAX / 3 {
        u64::MAX
    } else {
        median_rtt * 3
    };
    let mut best: Option<usize> = None;
    let mut j: usize = 0;
    while j < samples.len()
        invariant
            j <= samples@.len(),
            best == match best_sample(samples@, threshold, j as int) {
                Some(k) => Some(k as usize),
                None => None::<usize>,
            },
            best matches Some(k) ==> k < j,
        decreases samples@.len() - j,
    {
        proof {
            lemma_best_sample_range(samples@, threshold, j as int);
        }
        let s = samples[j];
        if s.rtt_us <= threshold {
            let better = match best {
                None => true,
                Some(k) => s.rtt_us < samples[k].rtt_us,
            };
            if better {
                best = Some(j);
            }
        }
        j = j + 1;
    }
    proof {
        lemma_best_sample_range(samples@, threshold, samples@.len() as int);
    }
    let chosen = match best {
        Some(k) => samples[k],
        None => samples[0],
    };
    proof {
        let sorted = rtts@;
        assert(sorted_version(rtts_of(samples@), sorted));
        assert(threshold == sat_triple(sorted[(samples@.len() / 2) as int]));
        let b = best_sample(samples@, threshold, samples@.len() as int);
        assert(chosen == match b {
            Some(i) => samples@[i],
            None => samples@[0],
        });
    }
    ClockSync {
        offset_us: chosen.offset_us,
        rtt_us: chosen.rtt_us,
        sample_count: samples.len() as u32,
        synced_at: instant_now(),
    }
}

/// The sample a pong gives, when it answers the ping sent at `t1`.
pub fn pong_sample(t1: u64, pong: &NetMessage, t4: u64) -> (r: Option<ClockSample>)
    requires
        match *pong {
            NetMessage::PongTime { t1_us, t2_us, t3_us } => t1_us == t1 ==> sample_fits(
                t1,
                t2_us,
                t3_us,
                t4,
            ),
            _ => true,
        },
    ensures
        match *pong {
            NetMessage::PongTime { t1_us, t2_us, t3_us } => if t1_us == t1 {
                r matches Some(s) && s.rtt_us == sat_sub(sat_sub(t4, t1), sat_sub(t3_us, t2_us))
                    && s.offset_us == trunc_div(
                    (t2_us as i64 - t1 as i64) + (t3_us as i64 - t4 as i64),
                    2,
                )
            } else {
                r is None
            },
            _ => r is None,
        },
{
    match pong {
        NetMessage::PongTime { t1_us, t2_us, t3_us } => {
            if *t1_us == t1 {
                Some(measure_sample(t1, *t2_us, *t3_us, t4))
            } else {
                None
            }
        },
        _ => None,
    }
}

/// The sync from the samples collected: none when no pong came back.
pub fn sync_from_samples(samples: &Vec<ClockSample>) -> (r: Option<ClockSync>)
    ensures
        r is None <==> samples@.len() == 0,
        r matches Some(sync) ==> synced_from(samples@, sync),
{
    if samples.len() == 0 {
        return None;
    }
    Some(compute_sync(samples.as_slice()))
}

/// Microseconds since the Unix epoch.
pub fn monotonic_us() -> u64 {
    duration_micros(&since_epoch(&system_now())) as u64
}

/// `now` shifted by `offset`, saturating at both ends.
pub open spec fn shifted(now: u64, offset: i64) -> u64 {
    let v = now + offset;
    if v < 0 {
        0
    } else if v > u64::MAX {
        u64::MAX
    } else {
        v as u64
    }
}

/// A clock reading adjusted by the coordinator's offset.
pub fn adjusted_us(now: u64, offset: i64) -> (r: u64)
    ensures
        r == shifted(now, offset),
{
    let v: i128 = now as i128 + offset as i128;
    if v < 0 {
        0
    } else if v > u64::MAX as i128 {
        u64::MAX
    } else {
        v as u64
    }
}

/// The tick at clock reading `now`, shifted by the coordinator's offset.
pub fn tick_at(now: u64, offset: i64) -> (r: u64)
    ensures
        r == shifted(now, offset) / 16667,
{
    adjusted_us(now, offset) / TICK_DUS
}

/// Ticks never go back as the clock advances.
pub proof fn law_ticks_never_go_back(now1: u64, now2: u64, offset: i64)
    requires
        now1 <= now2,
    ensures
        shifted(now1, offset) / 16667 <= shifted(now2, offset) / 16667,
{
    let a = shifted(now1, offset);
    let b = shifted(now2, offset);
    assert(a <= b);
    vstd::arithmetic::div_mod::lemma_div_is_ordered(a as int, b as int, 16667);
}

/// Game clock synchronised with the coordinator. The simulation never reads
/// the wall clock directly.
pub struct GameClock {
    sync: ClockSync,
}

impl GameClock {
    pub closed spec fn offset(&self) -> i64 {
        self.sync.offset_us
    }

    pub closed spec fn rtt(&self) -> u64 {
        self.sync.rtt_us
    }

    pub fn new(sync: ClockSync) -> (r: GameClock)
        ensures
            r.offset() == sync.offset_us,
            r.rtt() == sync.rtt_us,
    {
        GameClock { sync }
    }

    /// Current time adjusted by the coordinator's offset (microseconds):
    /// some reading of the system clock, shifted by the offset.
    pub fn now_us(&self) -> (r: u64)
        ensures
            exists|t: u64| r == shifted(t, self.offset()),
    {
        let t = monotonic_us();
        let r = adjusted_us(t, self.sync.offset_us);
        assert(r == shifted(t, self.offset()));
        r
    }

    /// Current simulation tick: a clock reading, then `tick_at` with the
    /// coordinator's offset.
    pub fn current_tick(&self) -> (r: u64)
        ensures
            exists|t: u64| r == shifted(t, self.offset()) / 16667,
    {
        let t = monotonic_us();
        let r = tick_at(t, self.sync.offset_us);
        assert(r == shifted(t, self.offset()) / 16667);
        r
    }

    /// Replaces the sync (called by the periodic resync).
    pub fn update_sync(&mut self, sync: ClockSync)
        ensures
            final(self).offset() == sync.offset_us,
            final(self).rtt() == sync.rtt_us,
    {
        self.sync = sync;
    }

    pub fn rtt_us(&self) -> (r: u64)
        ensures
            r == self.rtt(),
    {
        self.sync.rtt_us
    }
}

/// Answer to a ping, on the coordinator: echoes `t1` with its own receive
/// and send times.
pub fn handle_ping(t1_us: u64) -> (r: NetMessage)
    ensures
        r matches NetMessage::PongTime { t1_us: t, .. } && t == t1_us,
{
    let t2 = monotonic_us();
    let t3 = monotonic_us();
    NetMessage::PongTime { t1_us, t2_us: t2, t3_us: t3 }
}

} // verus!
