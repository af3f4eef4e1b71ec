//! Separates province-specific rounds out of the invitation timeline.
//!
//! The separator walks pool snapshots and invitation rounds in date order,
//! keeps a running pool vector re-seeded from the most recent snapshot dated
//! at or before each round, and simulates every round against it. A round
//! outside the province stream is emitted with its size replaced by the
//! general-pool portion of what it consumed; a province round is consumed but
//! never emitted; a round dated before every snapshot passes through
//! unchanged unless it is a province round.

use vstd::prelude::*;

use crate::category::CategoryCode;
use crate::data::{invites_wf, spec_pool_vec, Invite, Pool, COUNT_LIMIT};
use crate::score_pool::{
    lemma_invite_shape, lemma_sum_le, lemma_sum_nonneg, nonneg_seq, spec_invite, spec_non_pnp,
    spec_sub, sum_of, ScorePool,
};
use crate::NUM_BANDS;

verus! {

/// State of the separator after some prefix of the rounds: the number of
/// snapshots already consumed, the running pool if one was seeded, and the
/// rounds emitted so far.
pub struct PnpState {
    /// Number of snapshots whose date has passed.
    pub j: int,
    /// The running pool vector, once a snapshot has seeded it.
    pub running: Option<Seq<int>>,
    /// Rounds emitted so far.
    pub out: Seq<Invite>,
}

/// Every snapshot is bounded.
pub open spec fn pools_wf(pools: Seq<Pool>) -> bool {
    forall|i: int| 0 <= i < pools.len() ==> (#[trigger] pools[i]).wf()
}

/// Snapshots are in ascending date order.
pub open spec fn pools_sorted(pools: Seq<Pool>) -> bool {
    forall|i: int| 0 <= i < pools.len() - 1 ==> (#[trigger] pools[i].date) <= pools[i + 1].date
}

/// Rounds are in ascending date order.
pub open spec fn invites_sorted(invs: Seq<Invite>) -> bool {
    forall|i: int| 0 <= i < invs.len() - 1 ==> (#[trigger] invs[i].date) <= invs[i + 1].date
}

/// First snapshot index at or past `j` whose date is after `d`.
pub open spec fn spec_advance(pools: Seq<Pool>, j: int, d: int) -> int
    decreases pools.len() - j,
{
    if j < 0 || j >= pools.len() {
        j
    } else if pools[j].date <= d {
        spec_advance(pools, j + 1, d)
    } else {
        j
    }
}

/// The size a round is emitted with: the general-pool portion of what it
/// consumed from the running pool, or its own size when no snapshot had
/// seeded the pool yet.
pub open spec fn spec_round_size(pools: Seq<Pool>, invs: Seq<Invite>, k: int) -> int {
    let st = spec_pnp_state(pools, invs, k);
    let inv = invs[k];
    let j2 = spec_advance(pools, st.j, inv.date as int);
    let run = if j2 > st.j {
        Some(spec_pool_vec(&pools[j2 - 1]))
    } else {
        st.running
    };
    match run {
        Some(p) => sum_of(spec_non_pnp(spec_invite(p, inv.size as int))),
        None => inv.size as int,
    }
}

/// Separator state after the first `k` rounds.
pub open spec fn spec_pnp_state(pools: Seq<Pool>, invs: Seq<Invite>, k: int) -> PnpState
    decreases k,
{
    if k <= 0 {
        PnpState { j: 0, running: None, out: Seq::empty() }
    } else {
        let st = spec_pnp_state(pools, invs, k - 1);
        let inv = invs[k - 1];
        let j2 = spec_advance(pools, st.j, inv.date as int);
        let run = if j2 > st.j {
            Some(spec_pool_vec(&pools[j2 - 1]))
        } else {
            st.running
        };
        match run {
            Some(p) => {
                let consumed = spec_invite(p, inv.size as int);
                let emitted = Invite {
                    date: inv.date,
                    category: inv.category,
                    size: sum_of(spec_non_pnp(consumed)) as u64,
                };
                PnpState {
                    j: j2,
                    running: Some(spec_sub(p, consumed)),
                    out: if inv.category == CategoryCode::Province {
                        st.out
                    } else {
                        st.out.push(emitted)
                    },
                }
            },
            None => PnpState {
                j: j2,
                running: None,
                out: if inv.category == CategoryCode::Province {
                    st.out
                } else {
                    st.out.push(inv)
                },
            },
        }
    }
}

/// The invitation timeline with province rounds separated out.
pub open spec fn spec_remove_pnp(pools: Seq<Pool>, invs: Seq<Invite>) -> Seq<Invite> {
    spec_pnp_state(pools, invs, invs.len() as int).out
}

/// The running pool view of an optional pool.
pub open spec fn view_opt(o: &Option<ScorePool>) -> Option<Seq<int>> {
    match o {
        Some(p) => Some(p@),
        None => None,
    }
}

/// The optional running pool is a bounded, non-negative band vector.
pub open spec fn running_ok(o: Option<Seq<int>>) -> bool {
    match o {
        Some(p) => p.len() == NUM_BANDS && nonneg_seq(p) && crate::score_pool::bounded_seq(
            p,
            COUNT_LIMIT as int,
        ),
        None => true,
    }
}

/// The PNP separator.
pub struct PnpRemover;

impl PnpRemover {
    /// Walks snapshots and rounds in date order, simulates each round against
    /// the running pool, drops province rounds and re-expresses the others by
    /// the general-pool amount they consumed.
    pub fn remove_pnp(pool_data: &[Pool], invite_data: &[Invite]) -> (r: Vec<Invite>)
        requires
            pools_wf(pool_data@),
            pools_sorted(pool_data@),
            invites_wf(invite_data@),
            invites_sorted(invite_data@),
        ensures
            r@ == spec_remove_pnp(pool_data@, invite_data@),
            r@.len() <= invite_data@.len(),
            forall|i: int|
                0 <= i < r@.len() ==> (#[trigger] r@[i]).category != CategoryCode::Province,
            invites_wf(r@),
    {
        let ghost pools = pool_data@;
        let ghost invs = invite_data@;
        let mut out: Vec<Invite> = Vec::new();
        let mut j: usize = 0;
        let mut running: Option<ScorePool> = None;
        let mut k: usize = 0;
        while k < invite_data.len()
            invariant
                k <= invs.len(),
                pools == pool_data@,
                invs == invite_data@,
                pools_wf(pools),
                invites_wf(invs),
                j <= pools.len(),
                j as int == spec_pnp_state(pools, invs, k as int).j,
                view_opt(&running) == spec_pnp_state(pools, invs, k as int).running,
                out@ == spec_pnp_state(pools, invs, k as int).out,
                out@.len() <= k as int,
                running_ok(view_opt(&running)),
                forall|i: int|
                    0 <= i < out@.len() ==> (#[trigger] out@[i]).category
                        != CategoryCode::Province,
                invites_wf(out@),
            decreases invs.len() - k,
        {
            let inv = invite_data[k];
            let ghost st = spec_pnp_state(pools, invs, k as int);
            let ghost j0 = j as int;
            while j < pool_data.len() && pool_data[j].date <= inv.date
                invariant
                    pools == pool_data@,
                    pools_wf(pools),
                    j0 <= j as int <= pools.len(),
                    spec_advance(pools, j as int, inv.date as int) == spec_advance(
                        pools,
                        j0,
                        inv.date as int,
                    ),
                    view_opt(&running) == (if j as int > j0 {
                        Some(spec_pool_vec(&pools[j as int - 1]))
                    } else {
                        st.running
                    }),
                    running_ok(view_opt(&running)),
                decreases pools.len() - j,
            {
                running = Some(pool_data[j].to_score_pool());
                j = j + 1;
            }
            proof {
                assert(spec_advance(pools, j as int, inv.date as int) == j as int);
            }
            let next: Option<ScorePool> = match &running {
                Some(pool) => {
                    proof {
                        assert(pool@.len() == NUM_BANDS);
                        lemma_invite_shape(pool@, inv.size as int);
                    }
                    let consumed = pool.invite(inv.size);
                    let rest = pool.sub(&consumed);
                    let ghost p = pool@;
                    proof {
                        assert(rest@ =~= spec_sub(p, consumed@));
                        assert(running_ok(Some(rest@)));
                    }
                    if inv.category != CategoryCode::Province {
                        let non_pnp_part = consumed.non_pnp();
                        proof {
                            assert(nonneg_seq(non_pnp_part@));
                            lemma_sum_nonneg(non_pnp_part@);
                            lemma_sum_le(non_pnp_part@, consumed@);
                            assert(sum_of(consumed@) <= inv.size as int);
                        }
                        let sz = non_pnp_part.total();
                        let emitted = Invite { date: inv.date, category: inv.category, size: (
                        sz as u64) };
                        out.push(emitted);
                    }
                    Some(rest)
                },
                None => {
                    if inv.category != CategoryCode::Province {
                        out.push(inv);
                    }
                    None
                },
            };
            running = next;
            k = k + 1;
            proof {
                assert(j as int == spec_pnp_state(pools, invs, k as int).j);
                assert(view_opt(&running) == spec_pnp_state(pools, invs, k as int).running);
                assert(out@ =~= spec_pnp_state(pools, invs, k as int).out);
            }
        }
        out
    }
}

/// Province-coded rounds never appear in the separator's output.
pub proof fn lemma_no_province_in_output(pools: Seq<Pool>, invs: Seq<Invite>)
    ensures
        forall|i: int|
            0 <= i < spec_remove_pnp(pools, invs).len() ==> (#[trigger] spec_remove_pnp(
                pools,
                invs,
            )[i]).category != CategoryCode::Province,
{
    lemma_no_province_prefix(pools, invs, invs.len() as int);
}

/// No prefix of the separator's output holds a province round.
proof fn lemma_no_province_prefix(pools: Seq<Pool>, invs: Seq<Invite>, k: int)
    ensures
        forall|i: int|
            0 <= i < spec_pnp_state(pools, invs, k).out.len() ==> (#[trigger] spec_pnp_state(
                pools,
                invs,
                k,
            ).out[i]).category != CategoryCode::Province,
    decreases
        (if k >= 0 {
            k
        } else {
            0
        }),
{
    if k > 0 {
        lemma_no_province_prefix(pools, invs, k - 1);
    }
}

/// Total size of the rounds of `invs` dated between `d1` and `d2`.
pub open spec fn spec_vol_range(invs: Seq<Invite>, d1: int, d2: int) -> int
    decreases invs.len(),
{
    if invs.len() == 0 {
        0
    } else {
        spec_vol_range(invs.drop_last(), d1, d2) + if d1 <= invs.last().date <= d2 {
            invs.last().size as int
        } else {
            0int
        }
    }
}

/// Sum, over the non-province rounds of the first `k` that are dated between
/// `d1` and `d2`, of the general-pool amount each consumed.
pub open spec fn spec_consumed_range(
    pools: Seq<Pool>,
    invs: Seq<Invite>,
    k: int,
    d1: int,
    d2: int,
) -> int
    decreases
        (if k >= 0 {
            k
        } else {
            0
        }),
{
    if k <= 0 {
        0
    } else {
        spec_consumed_range(pools, invs, k - 1, d1, d2) + if d1 <= invs[k - 1].date <= d2
            && invs[k - 1].category != CategoryCode::Province {
            spec_round_size(pools, invs, k - 1)
        } else {
            0int
        }
    }
}

/// The snapshot pointer never moves backwards nor past the end.
pub proof fn lemma_advance_le(pools: Seq<Pool>, j: int, d: int)
    requires
        0 <= j <= pools.len(),
    ensures
        j <= spec_advance(pools, j, d) <= pools.len(),
    decreases pools.len() - j,
{
    if j < pools.len() && pools[j].date <= d {
        lemma_advance_le(pools, j + 1, d);
    }
}

/// After any prefix of the rounds the snapshot pointer is in range and the
/// running pool, once seeded, is a bounded non-negative band vector.
pub proof fn lemma_state_ok(pools: Seq<Pool>, invs: Seq<Invite>, k: int)
    requires
        pools_wf(pools),
    ensures
        0 <= spec_pnp_state(pools, invs, k).j <= pools.len(),
        running_ok(spec_pnp_state(pools, invs, k).running),
    decreases
        (if k >= 0 {
            k
        } else {
            0
        }),
{
    if k <= 0 {
    } else {
        lemma_state_ok(pools, invs, k - 1);
        let st = spec_pnp_state(pools, invs, k - 1);
        let inv = invs[k - 1];
        let j2 = spec_advance(pools, st.j, inv.date as int);
        lemma_advance_le(pools, st.j, inv.date as int);
        let run = if j2 > st.j {
            Some(spec_pool_vec(&pools[j2 - 1]))
        } else {
            st.running
        };
        assert(running_ok(run));
        match run {
            Some(p) => {
                lemma_invite_shape(p, inv.size as int);
            },
            None => {},
        }
    }
}

/// Over any date interval, the total volume of the separator's output equals
/// the sum of the general-pool amounts consumed by the non-province rounds of
/// that interval.
pub proof fn lemma_output_volume_matches_consumed(
    pools: Seq<Pool>,
    invs: Seq<Invite>,
    d1: int,
    d2: int,
)
    requires
        pools_wf(pools),
    ensures
        spec_vol_range(spec_remove_pnp(pools, invs), d1, d2) == spec_consumed_range(
            pools,
            invs,
            invs.len() as int,
            d1,
            d2,
        ),
{
    lemma_volume_prefix(pools, invs, invs.len() as int, d1, d2);
}

/// The interval-volume law over every prefix of the rounds.
proof fn lemma_volume_prefix(pools: Seq<Pool>, invs: Seq<Invite>, k: int, d1: int, d2: int)
    requires
        pools_wf(pools),
        0 <= k <= invs.len(),
    ensures
        spec_vol_range(spec_pnp_state(pools, invs, k).out, d1, d2) == spec_consumed_range(
            pools,
            invs,
            k,
            d1,
            d2,
        ),
    decreases k,
{
    if k > 0 {
        lemma_volume_prefix(pools, invs, k - 1, d1, d2);
        let st = spec_pnp_state(pools, invs, k - 1);
        let stk = spec_pnp_state(pools, invs, k);
        let inv = invs[k - 1];
        if inv.category != CategoryCode::Province {
            lemma_state_ok(pools, invs, k - 1);
            let j2 = spec_advance(pools, st.j, inv.date as int);
            lemma_advance_le(pools, st.j, inv.date as int);
            let run = if j2 > st.j {
                Some(spec_pool_vec(&pools[j2 - 1]))
            } else {
                st.running
            };
            assert(running_ok(run));
            match run {
                Some(p) => {
                    lemma_invite_shape(p, inv.size as int);
                    let consumed = spec_invite(p, inv.size as int);
                    let np = spec_non_pnp(consumed);
                    assert(nonneg_seq(np));
                    lemma_sum_nonneg(np);
                    lemma_sum_le(np, consumed);
                    assert(crate::score_pool::bounded_seq(consumed, COUNT_LIMIT as int));
                    crate::score_pool::lemma_sum_bounded(consumed, COUNT_LIMIT as int);
                    assert(sum_of(np) <= NUM_BANDS * (COUNT_LIMIT as int));
                },
                None => {},
            }
            assert(stk.out.drop_last() =~= st.out);
            assert(stk.out.last().date == inv.date);
            assert(stk.out.last().size as int == spec_round_size(pools, invs, k - 1));
        }
    }
}

} // verus!
