//! How fast ticks arrive.
use vstd::prelude::*;
use std::collections::VecDeque;

verus! {

/// Length of the window over which the rate is taken, and least time between two
/// refreshes, in nanoseconds.
pub const WINDOW_NANOS: u64 = 1_000_000_000;

/// Time from `since` to `now`; none when `since` lies ahead.
pub open spec fn elapsed(now: u64, since: u64) -> int {
    if now >= since {
        now - since
    } else {
        0
    }
}

/// The samples without those at the front that have left the window.
pub open spec fn in_window(samples: Seq<(u64, u64)>, now: u64) -> Seq<(u64, u64)>
    decreases samples.len(),
{
    if samples.len() > 0 && elapsed(now, samples[0].0) > WINDOW_NANOS {
        in_window(samples.skip(1), now)
    } else {
        samples
    }
}

/// The rate over some samples: ticks and nanoseconds from the first to the last.
/// None without progress.
pub open spec fn rate_over(samples: Seq<(u64, u64)>) -> Option<(u64, u64)> {
    if samples.len() == 0 {
        None
    } else {
        let (t0, n0) = samples[0];
        let (t1, n1) = samples.last();
        if elapsed(t1, t0) > 0 && n1 > n0 {
            Some(((n1 - n0) as u64, elapsed(t1, t0) as u64))
        } else {
            None
        }
    }
}

/// Whether the shown rate may be refreshed.
pub open spec fn refresh_due(last_update: Option<u64>, now: u64) -> bool {
    match last_update {
        Some(t) => elapsed(now, t) >= WINDOW_NANOS,
        None => true,
    }
}

/// Recent arrivals of ticks, as times and tick numbers.
#[derive(Debug)]
pub struct TickRate {
    pub samples: VecDeque<(u64, u64)>,
    /// When the shown rate was last refreshed.
    pub last_update: Option<u64>,
}

fn since(now: u64, t: u64) -> (d: u64)
    ensures
        d == elapsed(now, t),
{
    if now >= t {
        now - t
    } else {
        0
    }
}

impl TickRate {
    /// No ticks yet.
    pub fn new() -> (rate: Self)
        ensures
            rate.samples@.len() == 0,
            rate.last_update is None,
    {
        TickRate { samples: VecDeque::new(), last_update: None }
    }

    /// Note that a tick arrived. Returns the rate to show from now on, as ticks and
    /// nanoseconds, at most once per window; it rests on tick numbers, so dropped
    /// ticks do not lower it.
    pub fn record(&mut self, now: u64, tick: u64) -> (rate: Option<(u64, u64)>)
        ensures
            final(self).samples@ == in_window(old(self).samples@.push((now, tick)), now),
            rate == (if refresh_due(old(self).last_update, now) {
                rate_over(final(self).samples@)
            } else {
                None
            }),
            final(self).last_update == (if rate is Some {
                Some(now)
            } else {
                old(self).last_update
            }),
    {
        self.samples.push_back((now, tick));
        let ghost all = self.samples@;
        let ghost last = self.last_update;
        while self.samples.len() > 0 && since(now, self.samples[0].0) > WINDOW_NANOS
            invariant
                in_window(self.samples@, now) == in_window(all, now),
                self.last_update == last,
            decreases self.samples@.len(),
        {
            let ghost before = self.samples@;
            self.samples.pop_front();
            assert(self.samples@ =~= before.skip(1));
        }
        let due = match self.last_update {
            Some(t) => since(now, t) >= WINDOW_NANOS,
            None => true,
        };
        let n: usize = self.samples.len();
        if !due || n == 0 {
            return None;
        }
        let (t0, n0) = self.samples[0];
        let (t1, n1) = self.samples[n - 1];
        let dt: u64 = since(t1, t0);
        if dt > 0 && n1 > n0 {
            self.last_update = Some(now);
            Some((n1 - n0, dt))
        } else {
            None
        }
    }
}

/// The window drops the samples at the front that are more than a second old, up to the first
/// that is not, and no others.
pub proof fn lemma_the_window_drops_old_samples(samples: Seq<(u64, u64)>, now: u64) -> (k: int)
    ensures
        0 <= k <= samples.len(),
        in_window(samples, now) == samples.skip(k),
        forall|i: int| 0 <= i < k ==> now - (#[trigger] samples[i]).0 > 1_000_000_000,
        k < samples.len() ==> now - samples[k].0 <= 1_000_000_000,
    decreases samples.len(),
{
    if samples.len() > 0 && elapsed(now, samples[0].0) > WINDOW_NANOS {
        let rest = samples.skip(1);
        let k = lemma_the_window_drops_old_samples(rest, now);
        assert(rest.skip(k) =~= samples.skip(k + 1));
        assert forall|i: int| 0 <= i < k + 1 implies now - (#[trigger] samples[i]).0 > 1_000_000_000 by {
            if i > 0 {
                assert(rest[i - 1] == samples[i]);
            }
        }
        k + 1
    } else {
        assert(samples.skip(0) =~= samples);
        0
    }
}

/// The rate is the ticks and the time from the first sample to the last, where both have gone
/// on; and it is shown anew only when a second has passed since it was.
pub proof fn lemma_the_rate_is_progress_over_time(samples: Seq<(u64, u64)>, last: Option<u64>, now: u64)
    ensures
        samples.len() == 0 ==> rate_over(samples) is None,
        samples.len() > 0 ==> {
            let (t0, n0) = samples[0];
            let (t1, n1) = samples[samples.len() - 1];
            &&& t1 > t0 && n1 > n0 ==> (rate_over(samples) matches Some((ticks, nanos)) && ticks == n1 - n0
                && nanos == t1 - t0)
            &&& t1 <= t0 || n1 <= n0 ==> rate_over(samples) is None
        },
        last is None ==> refresh_due(last, now),
        last matches Some(t) ==> refresh_due(last, now) == (now - t >= 1_000_000_000),
{
}

} // verus!
