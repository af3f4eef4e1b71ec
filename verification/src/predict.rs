//! The forecasting engine.
//!
//! The predictor anchors on the latest known date, projects the general pool
//! forward in fourteen-day steps for a year, and for each step and observed
//! category converts the remaining planned admissions into a score cutoff
//! against the projected pool.

use vstd::prelude::*;

use crate::category::{
    spec_cat_non_pnp, CategoryCode, CategoryPool, CategoryShares, NUM_CATEGORIES, VOLUME_LIMIT,
};
use crate::category_analyzer::{
    lemma_cat_volume_nonneg, spec_cat_volume, spec_min_pos_den, spec_observed, CategoryAnalyzer,
    ANALYZER_INVITES_LIMIT,
};
use crate::data::{
    invites_wf, plans_wf, spec_plan_target2, spec_pool_vec, spec_year_volume, Invite, Plan, Pool,
    COUNT_LIMIT, PLANS_LIMIT, PLAN_LIMIT, SIZE_LIMIT,
};
use crate::date::{
    ordinal0_of, spec_days_in_year, wf_day, year_of, DAY_MAX,
};
use crate::non_pnp::{
    invites_sorted, pools_sorted, pools_wf, spec_remove_pnp, PnpRemover,
};
use crate::rate::{
    spec_all_samples, spec_rate_den, spec_rate_num, spec_run_pool, ProjectedRate, RateAnalyzer,
};
use crate::score_pool::{
    is_province_band, lemma_elem_le_sum, lemma_sum_nonneg, lemma_sum_zero, nonneg_seq, spec_add,
    spec_non_pnp, spec_pnp, spec_score_of_invite, sum_of, ScorePool, BAND_LIMIT,
};
use crate::{AnalyzeError, LOOKBEHIND_DAYS, NUM_BANDS};

verus! {

/// Largest value the doubled leave rate can take.
pub const LEAVE2_MAX: u64 = 0x40_0000_0000_0000;

/// The latest known date: the last round's date, or the last snapshot's date
/// when there is no round.
pub open spec fn spec_anchor(pools: Seq<Pool>, invs: Seq<Invite>) -> int {
    if invs.len() > 0 {
        invs.last().date as int
    } else {
        pools.last().date as int
    }
}

/// Whether a round falls in the look-behind window ending at `last`.
pub open spec fn spec_in_window(inv: Invite, last: int) -> bool {
    last - inv.date < LOOKBEHIND_DAYS
}

/// The rounds of the look-behind window ending at `last`, in order.
pub open spec fn spec_filter_window(invs: Seq<Invite>, last: int) -> Seq<Invite>
    decreases invs.len(),
{
    if invs.len() == 0 {
        Seq::empty()
    } else {
        spec_filter_window(invs.drop_last(), last) + if spec_in_window(invs.last(), last) {
            seq![invs.last()]
        } else {
            Seq::empty()
        }
    }
}

/// Sum of doubled targets of the plans for years in `[y1, y2)`.
pub open spec fn spec_mid_targets2(plans: Seq<Plan>, y1: int, y2: int) -> int
    decreases plans.len(),
{
    if plans.len() == 0 {
        0
    } else {
        spec_mid_targets2(plans.drop_last(), y1, y2) + if y1 <= plans.last().year < y2 {
            plans.last().min + plans.last().max
        } else {
            0
        }
    }
}

/// The doubled leave rate between `start` and `end`: remaining planned
/// admissions implied by the plans for the years up to `end` (full years at
/// their doubled midpoint, the terminal year pro-rated by day of year), less
/// what the separated timeline already invited in `start`'s year, floored at
/// zero.
pub open spec fn spec_leave2(
    pools: Seq<Pool>,
    invs: Seq<Invite>,
    plans: Seq<Plan>,
    start: int,
    end: int,
) -> int {
    let clean = spec_remove_pnp(pools, invs);
    let invited = spec_year_volume(clean, year_of(start));
    let mid2 = spec_mid_targets2(plans, year_of(start), year_of(end));
    let last2 = spec_plan_target2(plans, year_of(end)) * ordinal0_of(end) / spec_days_in_year(
        year_of(end),
    );
    if mid2 + last2 >= 2 * invited {
        mid2 + last2 - 2 * invited
    } else {
        0
    }
}

/// Entries of one band over `e` days at rate `n` per `d` days, floored at
/// zero.
pub open spec fn spec_enter_band(n: int, d: int, e: int) -> int {
    if n <= 0 {
        0
    } else {
        n * e / d
    }
}

/// The projected general-pool growth over `e` days, per band; the province
/// band never grows.
pub open spec fn spec_enter_vec(pools: Seq<Pool>, invs: Seq<Invite>, e: int) -> Seq<int> {
    Seq::new(
        NUM_BANDS as nat,
        |b: int|
            if is_province_band(b) {
                0
            } else {
                spec_enter_band(spec_rate_num(pools, invs, b), spec_rate_den(pools, invs), e)
            },
    )
}

/// The general pool as of the latest snapshot, carried forward through the
/// rounds dated after it; all zero when there is no snapshot.
pub open spec fn spec_final_pool_vec(pools: Seq<Pool>, invs: Seq<Invite>) -> Seq<int> {
    if pools.len() == 0 {
        Seq::new(NUM_BANDS as nat, |b: int| 0)
    } else {
        spec_non_pnp(
            spec_run_pool(
                spec_pool_vec(&pools[pools.len() - 1]),
                invs,
                invs.len() as int,
                pools[pools.len() - 1].date as int,
                DAY_MAX as int + 1,
            ),
        )
    }
}

/// The projected general pool `e` days past the anchor.
pub open spec fn spec_pool_at(pools: Seq<Pool>, invs: Seq<Invite>, e: int) -> Seq<int> {
    spec_add(spec_final_pool_vec(pools, invs), spec_enter_vec(pools, invs, e))
}

/// The predicted cutoff for the category at key position `c` on forecast date
/// `t`, in thousandths of a point. A category without volume in the window,
/// the province category among them, predicts zero. The general category
/// draws its planned volume directly; any other category's planned volume is
/// scaled up by its pool share and offset by the general category's
/// pre-invitation volume; a zero pool share consumes the whole pool.
pub open spec fn spec_cutoff(
    pools: Seq<Pool>,
    invs: Seq<Invite>,
    plans: Seq<Plan>,
    c: int,
    t: int,
) -> int {
    let last = spec_anchor(pools, invs);
    let w = spec_filter_window(invs, last);
    let vols = spec_cat_non_pnp(
        Seq::new(NUM_CATEGORIES as nat, |k: int| spec_cat_volume(w, k)),
    );
    let itot = sum_of(vols);
    let leave2 = spec_leave2(pools, invs, plans, last, t);
    let pool_at = spec_pool_at(pools, invs, t - last);
    if vols[c] <= 0 {
        0
    } else {
        let p2i = leave2 * vols[c] / (itot * 2);
        if c == 0 {
            spec_score_of_invite(pool_at, p2i)
        } else {
            let pre = leave2 * vols[0] / (itot * 2);
            let m = spec_min_pos_den(pools, pools.len() as int);
            if m == 0 {
                spec_score_of_invite(pool_at, sum_of(pool_at))
            } else {
                spec_score_of_invite(pool_at, p2i * m / vols[c] + pre)
            }
        }
    }
}

/// The predicted cutoffs of every category on forecast date `t`.
pub open spec fn spec_cutoffs_at(
    pools: Seq<Pool>,
    invs: Seq<Invite>,
    plans: Seq<Plan>,
    t: int,
) -> Seq<int> {
    Seq::new(NUM_CATEGORIES as nat, |c: int| spec_cutoff(pools, invs, plans, c, t))
}

/// The forecast dates: every fourteenth day from `from` up to `limit`.
pub open spec fn spec_dates(from: int, limit: int) -> Seq<int>
    decreases
        (if limit - from >= 0 {
            limit - from
        } else {
            0
        }),
{
    if from >= limit {
        Seq::empty()
    } else {
        seq![from] + spec_dates(from + 14, limit)
    }
}

/// First forecast date: seventeen days past the start of the Sunday week
/// holding the anchor.
pub open spec fn spec_first_date(last: int) -> int {
    last - last % 7 + 17
}

/// What a successful forecast holds: the dates, the per-date category
/// cutoffs, and the observed categories, each pinned to the inputs.
pub open spec fn predict_describes(
    pools: Seq<Pool>,
    invs: Seq<Invite>,
    plans: Seq<Plan>,
    labels: Seq<i64>,
    values: Seq<CategoryPool>,
    cats: Seq<CategoryCode>,
) -> bool {
    let last = spec_anchor(pools, invs);
    let dates = spec_dates(spec_first_date(last), last + LOOKBEHIND_DAYS);
    &&& labels.len() == dates.len()
    &&& forall|k: int| 0 <= k < labels.len() ==> (#[trigger] labels[k]) as int == dates[k]
    &&& values.len() == labels.len()
    &&& forall|k: int|
        0 <= k < values.len() ==> (#[trigger] values[k])@ == spec_cutoffs_at(
            pools,
            invs,
            plans,
            labels[k] as int,
        )
    &&& cats == spec_observed(spec_filter_window(invs, last), NUM_CATEGORIES as int)
}

/// The forecasting engine.
pub struct Predictor;

impl Predictor {
    /// Pool growth over the days from `start` to `end` at the projected rate,
    /// floored at zero per band; the province band never grows.
    pub fn enter_rate(rate: &ProjectedRate, start: i64, end: i64) -> (r: ScorePool)
        requires
            rate.wf(),
            start <= end,
            end - start <= LOOKBEHIND_DAYS,
        ensures
            r.wf(),
            r.nonneg(),
            forall|b: int|
                0 <= b < NUM_BANDS ==> #[trigger] r@[b] == (if is_province_band(b) {
                    0int
                } else {
                    spec_enter_band(rate.num@[b], rate.den as int, end - start)
                }),
            forall|b: int|
                0 <= b < NUM_BANDS ==> 0 <= #[trigger] r@[b] <= COUNT_LIMIT * LOOKBEHIND_DAYS,
    {
        let e: u64 = (end - start) as u64;
        let mut bands: Vec<i64> = Vec::new();
        let mut b: usize = 0;
        while b < NUM_BANDS
            invariant
                b <= NUM_BANDS,
                rate.wf(),
                0 <= e <= LOOKBEHIND_DAYS,
                bands@.len() == b,
                forall|k: int|
                    0 <= k < b ==> #[trigger] bands@[k] as int == (if is_province_band(k) {
                        0int
                    } else {
                        spec_enter_band(rate.num@[k], rate.den as int, e as int)
                    }),
                forall|k: int|
                    0 <= k < b ==> 0 <= #[trigger] bands@[k] as int <= COUNT_LIMIT
                        * LOOKBEHIND_DAYS,
            decreases NUM_BANDS - b,
        {
            if b == 0 {
                bands.push(0);
            } else {
                let n = rate.num.band(b);
                if n <= 0 {
                    bands.push(0);
                } else {
                    proof {
                        assert(n as int <= (rate.den * COUNT_LIMIT) as int);
                        assert((n as int) * (e as int) <= ((COUNT_LIMIT as int) * (e as int)) * (
                        rate.den as int)) by (nonlinear_arith)
                            requires
                                0 <= n as int <= (rate.den as int) * (COUNT_LIMIT as int),
                                e >= 0,
                                rate.den >= 1,
                        ;
                        vstd::arithmetic::div_mod::lemma_div_is_ordered(
                            (n as int) * (e as int),
                            ((COUNT_LIMIT as int) * (e as int)) * (rate.den as int),
                            rate.den as int,
                        );
                        vstd::arithmetic::div_mod::lemma_div_by_multiple(
                            (COUNT_LIMIT as int) * (e as int),
                            rate.den as int,
                        );
                        vstd::arithmetic::mul::lemma_mul_upper_bound(
                            COUNT_LIMIT as int,
                            COUNT_LIMIT as int,
                            e as int,
                            LOOKBEHIND_DAYS as int,
                        );
                        vstd::arithmetic::mul::lemma_mul_upper_bound(
                            n as int,
                            i64::MAX as int,
                            e as int,
                            LOOKBEHIND_DAYS as int,
                        );
                    }
                    let v: u64 = ((n as u128) * (e as u128) / (rate.den as u128)) as u64;
                    bands.push(v as i64);
                }
            }
            b = b + 1;
        }
        let r = ScorePool { bands };
        r
    }

    /// The doubled leave rate between `start` and `end`: what the plans still
    /// imply for admission after the volume already invited in `start`'s year
    /// on the separated timeline, floored at zero.
    pub fn leave_rate(
        pool_data: &[Pool],
        invite_data: &[Invite],
        plan_data: &Vec<Plan>,
        start: i64,
        end: i64,
    ) -> (r: u64)
        requires
            pools_wf(pool_data@),
            pools_sorted(pool_data@),
            invites_wf(invite_data@),
            invites_sorted(invite_data@),
            invite_data@.len() <= ANALYZER_INVITES_LIMIT,
            plans_wf(plan_data@),
            plan_data@.len() <= PLANS_LIMIT,
            wf_day(start as int),
            wf_day(end as int),
        ensures
            r as int == spec_leave2(pool_data@, invite_data@, plan_data@, start as int, end as int),
            r <= LEAVE2_MAX,
    {
        let clean = PnpRemover::remove_pnp(pool_data, invite_data);
        let y_start = crate::date::year_of_days(start);
        let y_end = crate::date::year_of_days(end);
        let invited = crate::data::year_total_invited(&clean, y_start);
        proof {
            crate::data::lemma_year_volume_bounded(clean@, y_start as int);
            vstd::arithmetic::mul::lemma_mul_inequality(
                clean@.len() as int,
                ANALYZER_INVITES_LIMIT as int,
                SIZE_LIMIT as int,
            );
        }
        let mut mid2: u64 = 0;
        let mut i: usize = 0;
        while i < plan_data.len()
            invariant
                i <= plan_data@.len(),
                plans_wf(plan_data@),
                plan_data@.len() <= PLANS_LIMIT,
                mid2 as int == spec_mid_targets2(
                    plan_data@.subrange(0, i as int),
                    y_start as int,
                    y_end as int,
                ),
                mid2 <= (i as int) * (2 * PLAN_LIMIT as int),
            decreases plan_data@.len() - i,
        {
            proof {
                let pre = plan_data@.subrange(0, i as int);
                assert(plan_data@.subrange(0, i as int + 1).drop_last() =~= pre);
                assert(plan_data@.subrange(0, i as int + 1).last() == plan_data@[i as int]);
                assert(plan_data@[i as int].wf());
                assert((i as int + 1) * (2 * PLAN_LIMIT as int) == (i as int) * (2
                    * PLAN_LIMIT as int) + 2 * PLAN_LIMIT as int) by (nonlinear_arith);
                vstd::arithmetic::mul::lemma_mul_inequality(
                    i as int,
                    PLANS_LIMIT as int,
                    2 * PLAN_LIMIT as int,
                );
            }
            let p = &plan_data[i];
            if y_start <= p.year && p.year < y_end {
                mid2 = mid2 + p.min + p.max;
            }
            i = i + 1;
        }
        proof {
            assert(plan_data@.subrange(0, plan_data@.len() as int) =~= plan_data@);
            vstd::arithmetic::mul::lemma_mul_inequality(
                plan_data@.len() as int,
                PLANS_LIMIT as int,
                2 * PLAN_LIMIT as int,
            );
        }
        let t2 = crate::data::plan_target_doubled(plan_data, y_end);
        proof {
            crate::data::lemma_target2_le_count(plan_data@, y_end as int);
            if crate::data::spec_count_year(plan_data@, y_end as int) == 1 {
                assert(1 * (2 * PLAN_LIMIT as int) == 2 * PLAN_LIMIT as int) by (nonlinear_arith);
            }
            assert(t2 as int <= 2 * PLAN_LIMIT as int);
        }
        let ord = crate::date::ordinal0_of_days(end);
        let diy = crate::date::days_in_year(y_end);
        proof {
            vstd::arithmetic::mul::lemma_mul_upper_bound(
                t2 as int,
                2 * PLAN_LIMIT as int,
                ord as int,
                366,
            );
        }
        let last2 = t2 * (ord as u64) / (diy as u64);
        proof {
            vstd::arithmetic::div_mod::lemma_div_nonincreasing(
                (t2 as int) * (ord as int),
                diy as int,
            );
        }
        let inv2 = 2 * invited;
        let tot = mid2 + last2;
        if tot >= inv2 {
            tot - inv2
        } else {
            0
        }
    }

    /// The invitation-volume shares, the pool shares, and the observed
    /// categories of the look-behind window ending at the last round.
    pub fn category_date(pool_data: &[Pool], invite_data: &[Invite]) -> (r: (
        CategoryShares,
        CategoryShares,
        Vec<CategoryCode>,
    ))
        requires
            pools_wf(pool_data@),
            invites_wf(invite_data@),
            invite_data@.len() <= ANALYZER_INVITES_LIMIT,
            invite_data@.len() > 0,
        ensures
            ({
                let w = spec_filter_window(invite_data@, invite_data@.last().date as int);
                let vols = spec_cat_non_pnp(
                    Seq::new(NUM_CATEGORIES as nat, |k: int| spec_cat_volume(w, k)),
                );
                let itot = sum_of(vols);
                let m = spec_min_pos_den(pool_data@, pool_data@.len() as int);
                &&& r.0.wf()
                &&& r.1.wf()
                &&& forall|c: int|
                    0 <= c < NUM_CATEGORIES ==> (if itot > 0 {
                        (#[trigger] r.0.num@[c]) as int == vols[c] && r.0.den@[c] as int == itot
                    } else {
                        r.0.num@[c] == 0u64 && r.0.den@[c] == 1u64
                    })
                &&& forall|c: int|
                    0 <= c < NUM_CATEGORIES ==> (if m > 0 && vols[c] > 0 {
                        (#[trigger] r.1.num@[c]) as int == vols[c] && r.1.den@[c] as int == m
                    } else {
                        r.1.num@[c] == 0u64 && r.1.den@[c] == 1u64
                    })
                &&& r.2@ == spec_observed(w, NUM_CATEGORIES as int)
            }),
    {
        let last = invite_data[invite_data.len() - 1].date;
        let ghost invs = invite_data@;
        let mut window: Vec<Invite> = Vec::new();
        let mut i: usize = 0;
        while i < invite_data.len()
            invariant
                i <= invs.len(),
                invs == invite_data@,
                invites_wf(invs),
                invs.len() <= ANALYZER_INVITES_LIMIT,
                invs.len() > 0,
                last == invs.last().date,
                wf_day(last as int),
                window@ == spec_filter_window(invs.subrange(0, i as int), last as int),
                window@.len() <= i,
                invites_wf(window@),
            decreases invs.len() - i,
        {
            proof {
                let pre = invs.subrange(0, i as int);
                assert(invs.subrange(0, i as int + 1).drop_last() =~= pre);
                assert(invs.subrange(0, i as int + 1).last() == invs[i as int]);
                assert(invs[i as int].wf());
            }
            let inv = invite_data[i];
            if last - inv.date < LOOKBEHIND_DAYS {
                window.push(inv);
            }
            i = i + 1;
        }
        proof {
            assert(invs.subrange(0, invs.len() as int) =~= invs);
        }
        let volumes = CategoryAnalyzer::invite_per_category(window.as_slice());
        let np = volumes.non_pnp();
        let ghost w = window@;
        let ghost vols = spec_cat_non_pnp(
            Seq::new(NUM_CATEGORIES as nat, |k: int| spec_cat_volume(w, k)),
        );
        proof {
            assert(volumes@ =~= Seq::new(
                NUM_CATEGORIES as nat,
                |k: int| spec_cat_volume(w, k),
            ));
            assert(np@ =~= vols);
            assert forall|c: int| 0 <= c < NUM_CATEGORIES implies 0 <= #[trigger] np@[c]
                <= VOLUME_LIMIT as int by {
                lemma_cat_volume_nonneg(w, c);
                vstd::arithmetic::mul::lemma_mul_inequality(
                    w.len() as int,
                    ANALYZER_INVITES_LIMIT as int,
                    SIZE_LIMIT as int,
                );
            }
        }
        let ipct = np.normalize();
        let ppct = CategoryAnalyzer::percent_per_category(pool_data, window.as_slice());
        let cats = CategoryAnalyzer::observed_categories(window.as_slice());
        proof {
            crate::score_pool::lemma_sum_nonneg(vols);
            if sum_of(vols) > 0 {
                assert(forall|c: int|
                    0 <= c < NUM_CATEGORIES ==> (#[trigger] ipct.num@[c]) as int == np@[c]);
            }
        }
        (ipct, ppct, cats)
    }

    /// The general pool as of the latest snapshot, with every round dated
    /// after it consumed; all zero when there is no snapshot.
    pub fn final_pool(pool_data: &[Pool], invite_data: &[Invite]) -> (r: ScorePool)
        requires
            pools_wf(pool_data@),
            invites_wf(invite_data@),
        ensures
            r.wf(),
            r.nonneg(),
            r.bounded(COUNT_LIMIT as int),
            r@ == spec_final_pool_vec(pool_data@, invite_data@),
            r@[0] == 0,
    {
        let ghost pools = pool_data@;
        let ghost invs = invite_data@;
        if pool_data.len() == 0 {
            let z = ScorePool::zero();
            proof {
                assert(z@ =~= spec_final_pool_vec(pools, invs));
            }
            return z;
        }
        let lastp = &pool_data[pool_data.len() - 1];
        proof {
            assert(pools[pools.len() - 1].wf());
        }
        let mut run = lastp.to_score_pool();
        let ghost p0 = run@;
        let ghost d2 = DAY_MAX as int + 1;
        let mut k: usize = 0;
        while k < invite_data.len()
            invariant
                k <= invs.len(),
                invs == invite_data@,
                invites_wf(invs),
                run.wf(),
                run.nonneg(),
                run.bounded(COUNT_LIMIT as int),
                d2 == DAY_MAX as int + 1,
                run@ == spec_run_pool(p0, invs, k as int, lastp.date as int, d2),
            decreases invs.len() - k,
        {
            let inv = &invite_data[k];
            proof {
                assert(invs[k as int].wf());
            }
            if lastp.date < inv.date {
                proof {
                    crate::score_pool::lemma_invite_shape(run@, inv.size as int);
                    assert(inv.date <= DAY_MAX);
                }
                let consumed = run.invite(inv.size);
                let rest = run.sub(&consumed);
                proof {
                    assert(rest@ =~= crate::score_pool::spec_sub(run@, consumed@));
                }
                run = rest;
            }
            k = k + 1;
        }
        let r = run.non_pnp();
        proof {
            assert(r@ =~= spec_final_pool_vec(pools, invs));
        }
        r
    }

    /// Forecasts a year ahead from the latest known date: the forecast dates,
    /// each date's per-category cutoffs, and the categories forecast. With no
    /// snapshot and no round at all there is no date anchor, and the empty
    /// history is reported instead.
    #[verifier::loop_isolation(false)]
    #[verifier::rlimit(100)]
    pub fn predict(pool_data: &[Pool], invite_data: &[Invite], plan_data: &Vec<Plan>) -> (r:
        Result<(Vec<i64>, Vec<CategoryPool>, Vec<CategoryCode>), AnalyzeError>)
        requires
            pools_wf(pool_data@),
            pools_sorted(pool_data@),
            invites_wf(invite_data@),
            invites_sorted(invite_data@),
            invite_data@.len() <= ANALYZER_INVITES_LIMIT,
            plans_wf(plan_data@),
            plan_data@.len() <= PLANS_LIMIT,
            pool_data@.len() <= crate::rate::SAMPLES_LIMIT,
            pool_data@.len() > 0 || invite_data@.len() > 0 ==> 7 <= spec_anchor(
                pool_data@,
                invite_data@,
            ) && spec_anchor(pool_data@, invite_data@) + LOOKBEHIND_DAYS <= DAY_MAX,
        ensures
            match r {
                Err(e) => e == AnalyzeError::EmptyHistory && pool_data@.len() == 0
                    && invite_data@.len() == 0,
                Ok(out) => (pool_data@.len() > 0 || invite_data@.len() > 0) && predict_describes(
                    pool_data@,
                    invite_data@,
                    plan_data@,
                    out.0@,
                    out.1@,
                    out.2@,
                ),
            },
    {
        let ghost pools = pool_data@;
        let ghost invs = invite_data@;
        let ghost plans = plan_data@;
        if pool_data.len() == 0 && invite_data.len() == 0 {
            return Err(AnalyzeError::EmptyHistory);
        }
        let last: i64 = if invite_data.len() > 0 {
            invite_data[invite_data.len() - 1].date
        } else {
            pool_data[pool_data.len() - 1].date
        };
        proof {
            assert(last as int == spec_anchor(pools, invs));
        }
        let ghost w = spec_filter_window(invs, last as int);
        let ghost vols = spec_cat_non_pnp(
            Seq::new(NUM_CATEGORIES as nat, |k: int| spec_cat_volume(w, k)),
        );
        let ghost itot = sum_of(vols);
        let ghost m = spec_min_pos_den(pools, pools.len() as int);
        proof {
            crate::category_analyzer::lemma_min_den_nonneg(pools, pools.len() as int);
            assert forall|c: int| 0 <= c < NUM_CATEGORIES implies #[trigger] vols[c] >= 0 by {
                lemma_cat_volume_nonneg(w, c);
            }
            lemma_sum_nonneg(vols);
        }
        let (ipct, ppct, cats) = if invite_data.len() > 0 {
            Self::category_date(pool_data, invite_data)
        } else {
            proof {
                assert(invs =~= Seq::<Invite>::empty());
                assert(w =~= Seq::<Invite>::empty());
                assert forall|c: int| 0 <= c < NUM_CATEGORIES implies #[trigger] vols[c] == 0 by {
                    assert(spec_cat_volume(w, c) == 0);
                }
                lemma_sum_zero(vols);
                crate::category_analyzer::lemma_observed_none(w, NUM_CATEGORIES as int);
            }
            (CategoryShares::zero(), CategoryShares::zero(), Vec::new())
        };
        proof {
            assert(cats@ == spec_observed(w, NUM_CATEGORIES as int));
        }
        let fp = Self::final_pool(pool_data, invite_data);
        let samples = RateAnalyzer::pool_increase_rate(pool_data, invite_data);
        let rate = RateAnalyzer::projected_rate(&samples);
        proof {
            crate::rate::lemma_samples_describe_pairs(pools, invs, pools.len() as int);
            let vv = spec_all_samples(pools, invs, pools.len() as int);
            assert(samples@.len() == vv.len());
            assert forall|k: int| 0 <= k < samples@.len() implies (#[trigger] samples@[k]).date
                as int == vv[k].date && samples@[k].days as int == vv[k].days
                && samples@[k].entries@ == vv[k].entries by {}
            if samples@.len() == 0 {
                assert(rate.den as int == spec_rate_den(pools, invs));
                assert forall|b: int| 0 <= b < NUM_BANDS implies #[trigger] rate.num@[b]
                    == spec_rate_num(pools, invs, b) by {}
            } else {
                let cutoff = samples@.last().date - (LOOKBEHIND_DAYS - 1);
                assert(samples@.last().date as int == vv.last().date);
                assert forall|b: int| 0 <= b < NUM_BANDS implies #[trigger] rate.num@[b]
                    == spec_rate_num(pools, invs, b) by {
                    crate::rate::lemma_window_bridge(samples@, vv, cutoff as int, b);
                }
                crate::rate::lemma_window_bridge(samples@, vv, cutoff as int, 0);
                assert(rate.den as int == spec_rate_den(pools, invs));
            }
        }
        let start: i64 = crate::date::week_sunday_start(last) + 17;
        let limit: i64 = last + LOOKBEHIND_DAYS;
        proof {
            assert(start as int == spec_first_date(last as int));
        }
        let mut labels: Vec<i64> = Vec::new();
        let mut values: Vec<CategoryPool> = Vec::new();
        let mut i: i64 = start;
        while i < limit
            invariant
                start <= i <= limit + 13,
                seq_int(labels@) + spec_dates(i as int, limit as int) =~= spec_dates(
                    start as int,
                    limit as int,
                ),
                values@.len() == labels@.len(),
                forall|k: int|
                    0 <= k < values@.len() ==> (#[trigger] values@[k])@ == spec_cutoffs_at(
                        pools,
                        invs,
                        plans,
                        labels@[k] as int,
                    ),
                rate.wf(),
                rate.den as int == spec_rate_den(pools, invs),
                forall|b: int|
                    0 <= b < NUM_BANDS ==> #[trigger] rate.num@[b] == spec_rate_num(pools, invs, b),
            decreases limit + 14 - i,
        {
            let enter = Self::enter_rate(&rate, last, i);
            let leave2 = Self::leave_rate(pool_data, invite_data, plan_data, last, i);
            proof {
                assert forall|b: int| 0 <= b < NUM_BANDS implies i64::MIN <= #[trigger] fp@[b]
                    + enter@[b] <= i64::MAX by {}
            }
            let pool_at = fp.add(&enter);
            proof {
                assert(enter@ =~= spec_enter_vec(pools, invs, i - last));
                assert(pool_at@ =~= spec_pool_at(pools, invs, i - last));
                assert(pool_at@[0] == 0);
                assert(nonneg_seq(pool_at@));
                assert(pool_at.bounded(BAND_LIMIT as int));
            }
            let mut item = CategoryPool::zero();
            let mut c: usize = 0;
            while c < NUM_CATEGORIES
                invariant
                    c <= NUM_CATEGORIES,
                    item.wf(),
                    forall|x: int|
                        0 <= x < c ==> #[trigger] item@[x] == spec_cutoff(
                            pools,
                            invs,
                            plans,
                            x,
                            i as int,
                        ),
                    forall|x: int| c <= x < NUM_CATEGORIES ==> #[trigger] item@[x] == 0,
                    pool_at.wf(),
                    pool_at.nonneg(),
                    pool_at.bounded(BAND_LIMIT as int),
                    pool_at@ == spec_pool_at(pools, invs, i - last),
                    leave2 as int == spec_leave2(pools, invs, plans, last as int, i as int),
                    leave2 <= LEAVE2_MAX,
                decreases NUM_CATEGORIES - c,
            {
                let code = match CategoryCode::from_index(c) {
                    Ok(cd) => cd,
                    Err(_) => CategoryCode::General,
                };
                proof {
                    assert(code.idx() == c as int);
                }
                let inum = ipct.num_of(code);
                let ghost prev_item = item@;
                if c != 1 && inum > 0 {
                    proof {
                        if itot == 0 {
                            assert(inum == 0u64);
                        }
                        assert(itot > 0);
                        assert(inum as int == vols[c as int]);
                        lemma_elem_le_sum(vols, c as int);
                    }
                    let iden = ipct.den_of(code);
                    proof {
                        assert(iden as int == itot);
                        assert(0 < inum as int <= iden as int);
                        vstd::arithmetic::mul::lemma_mul_upper_bound(
                            leave2 as int,
                            LEAVE2_MAX as int,
                            inum as int,
                            u64::MAX as int,
                        );
                        lemma_mul_div_le_left(leave2 as int, inum as int, iden as int);
                        vstd::arithmetic::mul::lemma_mul_upper_bound(
                            leave2 as int,
                            LEAVE2_MAX as int,
                            ipct.num@[0] as int,
                            u64::MAX as int,
                        );
                        assert(0 <= ipct.num@[0] as int <= iden as int) by {
                            assert(vols[0] >= 0);
                            lemma_elem_le_sum(vols, 0);
                        }
                        lemma_mul_div_le_left(leave2 as int, ipct.num@[0] as int, iden as int);
                    }
                    let p2i: u64 = ((leave2 as u128) * (inum as u128) / ((iden as u128) * 2))
                        as u64;
                    let score: u64;
                    if c == 0 {
                        score = pool_at.score_of_invite(p2i);
                    } else {
                        let pre: u64 = ((leave2 as u128) * (ipct.num_of(CategoryCode::General)
                            as u128) / ((iden as u128) * 2)) as u64;
                        let pnum = ppct.num_of(code);
                        if pnum == 0 {
                            proof {
                                assert(m == 0);
                                lemma_sum_nonneg(pool_at@);
                            }
                            let tot = pool_at.total();
                            score = pool_at.score_of_invite(tot as u64);
                        } else {
                            proof {
                                assert(m > 0);
                                assert(pnum as int == vols[c as int]);
                            }
                            let pden = ppct.den_of(code);
                            proof {
                                assert(pden as int == m);
                                vstd::arithmetic::mul::lemma_mul_upper_bound(
                                    p2i as int,
                                    LEAVE2_MAX as int,
                                    pden as int,
                                    u64::MAX as int,
                                );
                            }
                            let adj: u128 = (p2i as u128) * (pden as u128) / (pnum as u128) + (
                            pre as u128);
                            proof {
                                lemma_sum_nonneg(pool_at@);
                            }
                            let tot = pool_at.total();
                            let n: u64 = if adj > (tot as u64) as u128 {
                                tot as u64
                            } else {
                                adj as u64
                            };
                            score = pool_at.score_of_invite(n);
                            proof {
                                if adj > (tot as u64) as u128 {
                                    crate::score_pool::lemma_score_clamp(
                                        pool_at@,
                                        n as int,
                                        adj as int,
                                    );
                                }
                            }
                        }
                    }
                    item.set(code, score);
                    proof {
                        assert(item@ == prev_item.update(c as int, score as int));
                        assert(score as int == spec_cutoff(pools, invs, plans, c as int, i as int));
                    }
                } else {
                    proof {
                        if c == 1 {
                            assert(vols[c as int] == 0);
                        } else {
                            if itot > 0 {
                                assert(vols[c as int] == inum as int);
                            } else {
                                lemma_elem_le_sum(vols, c as int);
                            }
                        }
                        assert(vols[c as int] <= 0);
                        assert(spec_cutoff(pools, invs, plans, c as int, i as int) == 0);
                    }
                }
                c = c + 1;
            }
            proof {
                assert(item@ =~= spec_cutoffs_at(pools, invs, plans, i as int));
                assert(spec_dates(i as int, limit as int) == seq![i as int] + spec_dates(
                    i as int + 14,
                    limit as int,
                ));
            }
            labels.push(i);
            values.push(item);
            proof {
                assert(seq_int(labels@) =~= seq_int(labels@.drop_last()).push(i as int));
                assert(seq_int(labels@) + spec_dates(i as int + 14, limit as int) =~= spec_dates(
                    start as int,
                    limit as int,
                ));
            }
            i = i + 14;
        }
        proof {
            assert(spec_dates(i as int, limit as int) =~= Seq::<int>::empty());
            assert(seq_int(labels@) =~= spec_dates(start as int, limit as int));
        }
        Ok((labels, values, cats))
    }
}

/// The integer views of a vector of day numbers.
pub open spec fn seq_int(s: Seq<i64>) -> Seq<int> {
    Seq::new(s.len(), |k: int| s[k] as int)
}

/// A positive amount over a denominator at least as large, scaled by `l` and
/// halved, stays at most `l`.
proof fn lemma_mul_div_le_left(l: int, a: int, d: int)
    requires
        l >= 0,
        0 <= a <= d,
        d >= 1,
    ensures
        l * a / (d * 2) <= l,
        l * a >= 0,
{
    assert(l * a <= l * (d * 2) && l * a >= 0) by (nonlinear_arith)
        requires
            l >= 0,
            0 <= a <= d,
            d >= 1,
    ;
    vstd::arithmetic::div_mod::lemma_div_is_ordered(l * a, l * (d * 2), d * 2);
    vstd::arithmetic::div_mod::lemma_div_by_multiple(l, d * 2);
}

/// The projected general pool never holds a province component: at every
/// horizon its province part sums to zero.
pub proof fn lemma_projected_pool_no_pnp(pools: Seq<Pool>, invs: Seq<Invite>, e: int)
    requires
        pools_wf(pools),
    ensures
        sum_of(spec_pnp(spec_pool_at(pools, invs, e))) == 0,
{
    let p = spec_pool_at(pools, invs, e);
    if pools.len() > 0 {
        assert(pools[pools.len() - 1].wf());
        crate::rate::lemma_run_pool_len(
            spec_pool_vec(&pools[pools.len() - 1]),
            invs,
            invs.len() as int,
            pools[pools.len() - 1].date as int,
            DAY_MAX as int + 1,
        );
    }
    assert(spec_final_pool_vec(pools, invs)[0] == 0);
    assert(spec_enter_vec(pools, invs, e)[0] == 0);
    assert forall|b: int| 0 <= b < spec_pnp(p).len() implies spec_pnp(p)[b] == 0 by {
        if b == 0 {
            assert(p[0] == 0);
        }
    }
    lemma_sum_zero(spec_pnp(p));
}

/// The forecast is a function of its inputs alone: two successful runs on the
/// same records agree on every date, every cutoff and the category set.
pub proof fn lemma_predict_deterministic(
    pools: Seq<Pool>,
    invs: Seq<Invite>,
    plans: Seq<Plan>,
    l1: Seq<i64>,
    v1: Seq<CategoryPool>,
    c1: Seq<CategoryCode>,
    l2: Seq<i64>,
    v2: Seq<CategoryPool>,
    c2: Seq<CategoryCode>,
)
    requires
        predict_describes(pools, invs, plans, l1, v1, c1),
        predict_describes(pools, invs, plans, l2, v2, c2),
    ensures
        l1 == l2,
        c1 == c2,
        v1.len() == v2.len(),
        forall|k: int| 0 <= k < v1.len() ==> (#[trigger] v1[k])@ == v2[k]@,
{
    assert(l1 =~= l2);
}

} // verus!
