//! Historical entry-rate estimation and projection.
//!
//! For each pair of date-adjacent snapshots the analyzer computes how many
//! candidates entered the pool per band: the pool change over the interval
//! plus whatever the rounds issued in between consumed (conservation: entries
//! equal pool growth plus removals). The projection sums the samples of the
//! trailing look-behind window into one rate, kept exact as a per-band total
//! over a number of days.

use vstd::prelude::*;

use crate::data::{invites_wf, spec_pool_vec, Invite, Pool, COUNT_LIMIT};
use crate::date::{wf_day, DAY_MAX};
use crate::non_pnp::{pools_sorted, pools_wf};
use crate::score_pool::{lemma_invite_shape, spec_invite, spec_sub, ScorePool};
use crate::{LOOKBEHIND_DAYS, NUM_BANDS};

verus! {

/// One entry-rate observation: the per-band amounts that entered the pool
/// over `days` days ending on `date`.
#[derive(Debug)]
pub struct RateSample {
    /// Day number the interval ends on.
    pub date: i64,
    /// Per-band net entries over the interval; negative when the pool shrank
    /// beyond what the rounds consumed.
    pub entries: ScorePool,
    /// Length of the interval in days.
    pub days: u64,
}

impl RateSample {
    /// A sample spans at least one day and carries bounded per-band entries.
    pub open spec fn wf(&self) -> bool {
        &&& self.entries.wf()
        &&& self.entries.bounded(COUNT_LIMIT as int)
        &&& 1 <= self.days <= DAY_MAX
        &&& wf_day(self.date as int)
    }
}

/// Every sample is bounded.
pub open spec fn samples_wf(ss: Seq<RateSample>) -> bool {
    forall|i: int| 0 <= i < ss.len() ==> (#[trigger] ss[i]).wf()
}

/// A projected entry rate: `num` candidates per band over `den` days.
#[derive(Debug)]
pub struct ProjectedRate {
    /// Per-band entries over the whole window.
    pub num: ScorePool,
    /// Length of the window in days, at least one.
    pub den: u64,
}

impl ProjectedRate {
    /// The rate is a band vector over a positive number of days, and per band
    /// its magnitude is at most the largest snapshot count per day.
    pub open spec fn wf(&self) -> bool {
        &&& self.num.wf()
        &&& self.den >= 1
        &&& forall|b: int|
            0 <= b < self.num@.len() ==> -((self.den * COUNT_LIMIT) as int) <= #[trigger] self.num@[b]
                <= (self.den * COUNT_LIMIT) as int
    }
}

/// The pool after the first `k` rounds dated in `(d1, d2]` are drawn from it,
/// each consuming top-down.
pub open spec fn spec_run_pool(p0: Seq<int>, invs: Seq<Invite>, k: int, d1: int, d2: int) -> Seq<
    int,
>
    decreases
        (if k >= 0 {
            k
        } else {
            0
        }),
{
    if k <= 0 {
        p0
    } else {
        let p = spec_run_pool(p0, invs, k - 1, d1, d2);
        if d1 < invs[k - 1].date <= d2 {
            spec_sub(p, spec_invite(p, invs[k - 1].size as int))
        } else {
            p
        }
    }
}

/// Drawing rounds from a pool never changes its band count.
pub proof fn lemma_run_pool_len(p0: Seq<int>, invs: Seq<Invite>, k: int, d1: int, d2: int)
    ensures
        spec_run_pool(p0, invs, k, d1, d2).len() == p0.len(),
    decreases
        (if k >= 0 {
            k
        } else {
            0
        }),
{
    if k > 0 {
        lemma_run_pool_len(p0, invs, k - 1, d1, d2);
    }
}

/// Per-band entries over the snapshot interval from index `a` to index `b`:
/// the later snapshot less what remains of the earlier one after the rounds
/// in between consumed from it.
pub open spec fn spec_interval_entries(
    pools: Seq<Pool>,
    invs: Seq<Invite>,
    a: int,
    b: int,
) -> Seq<int> {
    spec_sub(
        spec_pool_vec(&pools[b]),
        spec_run_pool(
            spec_pool_vec(&pools[a]),
            invs,
            invs.len() as int,
            pools[a].date as int,
            pools[b].date as int,
        ),
    )
}

/// Start indices of the observed intervals among the first `i` snapshots:
/// each date-adjacent pair whose dates strictly increase.
pub open spec fn spec_pairs(pools: Seq<Pool>, i: int) -> Seq<int>
    decreases
        (if i >= 1 {
            i
        } else {
            0
        }),
{
    if i <= 1 {
        Seq::empty()
    } else {
        spec_pairs(pools, i - 1) + if pools[i - 1].date > pools[i - 2].date {
            seq![i - 2]
        } else {
            Seq::empty()
        }
    }
}

/// The rate analyzer.
pub struct RateAnalyzer;

impl RateAnalyzer {
    /// One entry-rate sample per pair of date-adjacent snapshots whose dates
    /// strictly increase: conservation says entries equal the pool change
    /// plus what the rounds issued in between consumed.
    #[verifier::rlimit(100)]
    pub fn pool_increase_rate(pool_data: &[Pool], invite_data: &[Invite]) -> (r: Vec<RateSample>)
        requires
            pools_wf(pool_data@),
            pools_sorted(pool_data@),
            invites_wf(invite_data@),
        ensures
            r@.len() == spec_pairs(pool_data@, pool_data@.len() as int).len(),
            r@.len() <= pool_data@.len(),
            forall|k: int|
                0 <= k < r@.len() ==> {
                    let a = spec_pairs(pool_data@, pool_data@.len() as int)[k];
                    (#[trigger] r@[k]).date == pool_data@[a + 1].date && r@[k].days as int
                        == pool_data@[a + 1].date - pool_data@[a].date && r@[k].entries@
                        == spec_interval_entries(pool_data@, invite_data@, a, a + 1)
                },
            samples_wf(r@),
    {
        let ghost pools = pool_data@;
        let ghost invs = invite_data@;
        proof {
            lemma_pairs_len(pools, pools.len() as int);
        }
        let mut r: Vec<RateSample> = Vec::new();
        if pool_data.len() < 2 {
            return r;
        }
        let mut i: usize = 1;
        while i < pool_data.len()
            invariant
                1 <= i <= pools.len(),
                pools == pool_data@,
                invs == invite_data@,
                pools_wf(pools),
                pools_sorted(pools),
                invites_wf(invs),
                r@.len() == spec_pairs(pools, i as int).len(),
                forall|k: int|
                    0 <= k < r@.len() ==> {
                        let a = spec_pairs(pools, i as int)[k];
                        (#[trigger] r@[k]).date == pools[a + 1].date && r@[k].days as int
                            == pools[a + 1].date - pools[a].date && r@[k].entries@
                            == spec_interval_entries(pools, invs, a, a + 1)
                    },
                samples_wf(r@),
            decreases pools.len() - i,
        {
            let prev = &pool_data[i - 1];
            let cur = &pool_data[i];
            if cur.date > prev.date {
                let mut run = prev.to_score_pool();
                let ghost p0 = run@;
                let mut k: usize = 0;
                while k < invite_data.len()
                    invariant
                        k <= invs.len(),
                        invs == invite_data@,
                        invites_wf(invs),
                        run.wf(),
                        run.nonneg(),
                        run.bounded(COUNT_LIMIT as int),
                        run@ == spec_run_pool(
                            p0,
                            invs,
                            k as int,
                            prev.date as int,
                            cur.date as int,
                        ),
                    decreases invs.len() - k,
                {
                    let inv = &invite_data[k];
                    if prev.date < inv.date && inv.date <= cur.date {
                        proof {
                            lemma_invite_shape(run@, inv.size as int);
                        }
                        let consumed = run.invite(inv.size);
                        let rest = run.sub(&consumed);
                        proof {
                            assert(rest@ =~= spec_sub(run@, consumed@));
                        }
                        run = rest;
                    }
                    k = k + 1;
                }
                let after = cur.to_score_pool();
                let entries = after.sub(&run);
                proof {
                    assert(entries@ =~= spec_interval_entries(pools, invs, i - 1, i as int));
                    assert(spec_pairs(pools, i as int + 1) =~= spec_pairs(pools, i as int)
                        + seq![i - 1]);
                }
                let days = (cur.date - prev.date) as u64;
                proof {
                    assert(pools[i - 1].wf());
                    assert(pools[i as int].wf());
                    assert forall|b: int| 0 <= b < NUM_BANDS implies -(COUNT_LIMIT as int)
                        <= #[trigger] entries@[b] <= COUNT_LIMIT as int by {
                        assert(0 <= after@[b] <= COUNT_LIMIT as int);
                        assert(0 <= run@[b] <= COUNT_LIMIT as int);
                    }
                }
                let sample = RateSample { date: cur.date, entries, days };
                r.push(sample);
            } else {
                proof {
                    assert(spec_pairs(pools, i as int + 1) =~= spec_pairs(pools, i as int));
                }
            }
            i = i + 1;
        }
        r
    }

    /// Sums the samples of the trailing look-behind window, ending at the
    /// last sample, into one exact rate: per-band entries over total days.
    /// With no sample at all the rate is zero over one day.
    pub fn projected_rate(samples: &Vec<RateSample>) -> (r: ProjectedRate)
        requires
            samples_wf(samples@),
            samples@.len() <= SAMPLES_LIMIT,
        ensures
            r.wf(),
            samples@.len() == 0 ==> r.den == 1 && (forall|b: int|
                0 <= b < r.num@.len() ==> r.num@[b] == 0),
            samples@.len() > 0 ==> {
                let cutoff = samples@.last().date - (LOOKBEHIND_DAYS - 1);
                r.den as int == spec_window_days(samples@, cutoff) && (forall|b: int|
                    0 <= b < NUM_BANDS ==> #[trigger] r.num@[b] == spec_window_entries(
                        samples@,
                        cutoff,
                        b,
                    ))
            },
    {
        if samples.len() == 0 {
            return ProjectedRate { num: ScorePool::zero(), den: 1 };
        }
        let last_idx = samples.len() - 1;
        let last_date = samples[last_idx].date;
        let cutoff: i64 = last_date - (LOOKBEHIND_DAYS - 1);
        proof {
            assert(samples@[last_idx as int].wf());
        }
        let ghost gcut = cutoff as int;
        let mut num = ScorePool::zero();
        let mut den: u64 = 0;
        let mut i: usize = 0;
        while i < samples.len()
            invariant
                i <= samples@.len(),
                samples_wf(samples@),
                samples@.len() <= SAMPLES_LIMIT,
                gcut == cutoff as int,
                num.wf(),
                den as int == spec_window_days(samples@.subrange(0, i as int), gcut),
                den <= (i as int) * (DAY_MAX as int),
                forall|b: int|
                    0 <= b < NUM_BANDS ==> -((i as int) * (COUNT_LIMIT as int)) <= #[trigger] num@[b]
                        <= (i as int) * (COUNT_LIMIT as int),
                forall|b: int|
                    0 <= b < NUM_BANDS ==> #[trigger] num@[b] == spec_window_entries(
                        samples@.subrange(0, i as int),
                        gcut,
                        b,
                    ),
                forall|b: int|
                    0 <= b < NUM_BANDS ==> -((den * COUNT_LIMIT) as int) <= #[trigger] num@[b]
                        <= (den * COUNT_LIMIT) as int,
            decreases samples@.len() - i,
        {
            proof {
                let pre = samples@.subrange(0, i as int);
                assert(samples@.subrange(0, i as int + 1).drop_last() =~= pre);
                assert(samples@.subrange(0, i as int + 1).last() == samples@[i as int]);
                assert(samples@[i as int].wf());
                vstd::arithmetic::mul::lemma_mul_inequality(
                    i as int,
                    SAMPLES_LIMIT as int,
                    DAY_MAX as int,
                );
                vstd::arithmetic::mul::lemma_mul_inequality(
                    i as int,
                    SAMPLES_LIMIT as int,
                    COUNT_LIMIT as int,
                );
                vstd::arithmetic::mul::lemma_mul_inequality(
                    i as int,
                    i as int + 1,
                    COUNT_LIMIT as int,
                );
                vstd::arithmetic::mul::lemma_mul_inequality(
                    i as int,
                    i as int + 1,
                    DAY_MAX as int,
                );
                assert((i as int + 1) * (COUNT_LIMIT as int) == (i as int) * (COUNT_LIMIT as int)
                    + COUNT_LIMIT as int) by (nonlinear_arith);
                assert((i as int + 1) * (DAY_MAX as int) == (i as int) * (DAY_MAX as int)
                    + DAY_MAX as int) by (nonlinear_arith);
            }
            let s = &samples[i];
            if s.date >= cutoff {
                proof {
                    assert forall|b: int| 0 <= b < NUM_BANDS implies i64::MIN <= #[trigger] num@[b]
                        + s.entries@[b] <= i64::MAX by {
                        assert(-(COUNT_LIMIT as int) <= s.entries@[b] <= COUNT_LIMIT as int);
                    }
                }
                let new_num = num.add(&s.entries);
                proof {
                    assert forall|b: int| 0 <= b < NUM_BANDS implies -(((den + s.days)
                        * COUNT_LIMIT) as int) <= #[trigger] new_num@[b] <= (((den + s.days)
                        * COUNT_LIMIT) as int) by {
                        assert(-(COUNT_LIMIT as int) <= s.entries@[b] <= COUNT_LIMIT as int);
                        lemma_den_bound_step(den as int, s.days as int, num@[b], s.entries@[b]);
                        assert(new_num@[b] == num@[b] + s.entries@[b]);
                    }
                }
                num = new_num;
                den = den + s.days;
            }
            i = i + 1;
        }
        proof {
            assert(samples@.subrange(0, samples@.len() as int) =~= samples@);
            assert(samples@.last().wf());
            lemma_window_last_in(samples@, gcut);
        }
        ProjectedRate { num, den }
    }
}

/// Largest accepted number of rate samples.
pub const SAMPLES_LIMIT: usize = 0x10_0000;

/// Total days of the samples dated at or after `cutoff`.
pub open spec fn spec_window_days(ss: Seq<RateSample>, cutoff: int) -> int
    decreases ss.len(),
{
    if ss.len() == 0 {
        0
    } else {
        spec_window_days(ss.drop_last(), cutoff) + if ss.last().date >= cutoff {
            ss.last().days as int
        } else {
            0int
        }
    }
}

/// Total entries of band `b` over the samples dated at or after `cutoff`.
pub open spec fn spec_window_entries(ss: Seq<RateSample>, cutoff: int, b: int) -> int
    decreases ss.len(),
{
    if ss.len() == 0 {
        0
    } else {
        spec_window_entries(ss.drop_last(), cutoff, b) + if ss.last().date >= cutoff {
            ss.last().entries@[b]
        } else {
            0int
        }
    }
}

/// A window that includes its last sample spans at least one day.
proof fn lemma_window_last_in(ss: Seq<RateSample>, cutoff: int)
    requires
        samples_wf(ss),
        ss.len() > 0,
        ss.last().date >= cutoff,
    ensures
        spec_window_days(ss, cutoff) >= 1,
        spec_window_days(ss, cutoff) >= spec_window_days(ss.drop_last(), cutoff),
        spec_window_days(ss.drop_last(), cutoff) >= 0,
    decreases ss.len(),
{
    lemma_window_days_nonneg(ss.drop_last(), cutoff);
}

/// Window days never go negative.
proof fn lemma_window_days_nonneg(ss: Seq<RateSample>, cutoff: int)
    requires
        samples_wf(ss),
    ensures
        spec_window_days(ss, cutoff) >= 0,
    decreases ss.len(),
{
    if ss.len() > 0 {
        assert(samples_wf(ss.drop_last()));
        lemma_window_days_nonneg(ss.drop_last(), cutoff);
        assert(ss.last().wf());
    }
}

/// There are fewer observed intervals than snapshots.
pub proof fn lemma_pairs_len(pools: Seq<Pool>, i: int)
    ensures
        spec_pairs(pools, i).len() <= (if i >= 1 {
            i
        } else {
            0
        }),
    decreases
        (if i >= 1 {
            i
        } else {
            0
        }),
{
    if i > 1 {
        lemma_pairs_len(pools, i - 1);
    }
}

/// A rate sample, described at the specification level.
pub struct SampleV {
    /// Day number the interval ends on.
    pub date: int,
    /// Per-band net entries over the interval.
    pub entries: Seq<int>,
    /// Length of the interval in days.
    pub days: int,
}

/// The entry-rate samples of the first `i` snapshots, described at the
/// specification level.
pub open spec fn spec_all_samples(pools: Seq<Pool>, invs: Seq<Invite>, i: int) -> Seq<SampleV>
    decreases
        (if i >= 1 {
            i
        } else {
            0
        }),
{
    if i <= 1 {
        Seq::empty()
    } else {
        spec_all_samples(pools, invs, i - 1) + if pools[i - 1].date > pools[i - 2].date {
            seq![
                (SampleV {
                    date: pools[i - 1].date as int,
                    entries: spec_interval_entries(pools, invs, i - 2, i - 1),
                    days: pools[i - 1].date - pools[i - 2].date,
                }),
            ]
        } else {
            Seq::empty()
        }
    }
}

/// The described samples line up with the observed interval indices.
pub proof fn lemma_samples_describe_pairs(pools: Seq<Pool>, invs: Seq<Invite>, i: int)
    ensures
        spec_all_samples(pools, invs, i).len() == spec_pairs(pools, i).len(),
        forall|k: int|
            0 <= k < spec_pairs(pools, i).len() ==> {
                let a = spec_pairs(pools, i)[k];
                (#[trigger] spec_all_samples(pools, invs, i)[k]).date == pools[a + 1].date
                    && spec_all_samples(pools, invs, i)[k].days == pools[a + 1].date - pools[a].date
                    && spec_all_samples(pools, invs, i)[k].entries == spec_interval_entries(
                    pools,
                    invs,
                    a,
                    a + 1,
                )
            },
    decreases
        (if i >= 1 {
            i
        } else {
            0
        }),
{
    if i > 1 {
        lemma_samples_describe_pairs(pools, invs, i - 1);
    }
}

/// Total days of the described samples dated at or after `cutoff`.
pub open spec fn spec_v_window_days(ss: Seq<SampleV>, cutoff: int) -> int
    decreases ss.len(),
{
    if ss.len() == 0 {
        0
    } else {
        spec_v_window_days(ss.drop_last(), cutoff) + if ss.last().date >= cutoff {
            ss.last().days
        } else {
            0int
        }
    }
}

/// Total entries of band `b` over the described samples dated at or after
/// `cutoff`.
pub open spec fn spec_v_window_entries(ss: Seq<SampleV>, cutoff: int, b: int) -> int
    decreases ss.len(),
{
    if ss.len() == 0 {
        0
    } else {
        spec_v_window_entries(ss.drop_last(), cutoff, b) + if ss.last().date >= cutoff {
            ss.last().entries[b]
        } else {
            0int
        }
    }
}

/// Samples that agree field by field have the same window sums.
pub proof fn lemma_window_bridge(ss: Seq<RateSample>, vv: Seq<SampleV>, cutoff: int, b: int)
    requires
        ss.len() == vv.len(),
        forall|k: int|
            0 <= k < ss.len() ==> (#[trigger] ss[k]).date as int == vv[k].date && ss[k].days as int
                == vv[k].days && ss[k].entries@ == vv[k].entries,
    ensures
        spec_window_days(ss, cutoff) == spec_v_window_days(vv, cutoff),
        spec_window_entries(ss, cutoff, b) == spec_v_window_entries(vv, cutoff, b),
    decreases ss.len(),
{
    if ss.len() > 0 {
        assert(ss.drop_last().len() == vv.drop_last().len());
        assert forall|k: int| 0 <= k < ss.drop_last().len() implies (#[trigger] ss.drop_last()[
        k]).date as int == vv.drop_last()[k].date && ss.drop_last()[k].days as int
            == vv.drop_last()[k].days && ss.drop_last()[k].entries@ == vv.drop_last()[k].entries by {
            assert(ss.drop_last()[k] == ss[k]);
            assert(vv.drop_last()[k] == vv[k]);
        }
        lemma_window_bridge(ss.drop_last(), vv.drop_last(), cutoff, b);
        assert(ss.last() == ss[ss.len() - 1]);
        assert(vv.last() == vv[vv.len() - 1]);
    }
}

/// The projected window length in days, as a function of the inputs alone.
pub open spec fn spec_rate_den(pools: Seq<Pool>, invs: Seq<Invite>) -> int {
    let ss = spec_all_samples(pools, invs, pools.len() as int);
    if ss.len() == 0 {
        1
    } else {
        spec_v_window_days(ss, ss.last().date - (LOOKBEHIND_DAYS - 1))
    }
}

/// The projected window entries of band `b`, as a function of the inputs
/// alone.
pub open spec fn spec_rate_num(pools: Seq<Pool>, invs: Seq<Invite>, b: int) -> int {
    let ss = spec_all_samples(pools, invs, pools.len() as int);
    if ss.len() == 0 {
        0
    } else {
        spec_v_window_entries(ss, ss.last().date - (LOOKBEHIND_DAYS - 1), b)
    }
}

/// Growing the window by one sample moves the per-band bound by the sample's
/// own span.
proof fn lemma_den_bound_step(den: int, days: int, acc: int, e: int)
    requires
        den >= 0,
        days >= 1,
        -(den * (COUNT_LIMIT as int)) <= acc <= den * (COUNT_LIMIT as int),
        -(COUNT_LIMIT as int) <= e <= COUNT_LIMIT as int,
    ensures
        -((den + days) * (COUNT_LIMIT as int)) <= acc + e <= (den + days) * (COUNT_LIMIT as int),
{
    assert((den + days) * (COUNT_LIMIT as int) >= den * (COUNT_LIMIT as int) + COUNT_LIMIT as int)
        by (nonlinear_arith)
        requires
            den >= 0,
            days >= 1,
    ;
}

} // verus!
