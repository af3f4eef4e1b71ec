//! Historical category-share estimation.
//!
//! Over a window of rounds the analyzer counts each category's invitation
//! volume, and estimates each category's share of the general pool. The pool
//! share kept is the most conservative one: the largest share any snapshot
//! supports, which is the category's volume over the smallest positive
//! general-pool total among the snapshots.

use vstd::prelude::*;

use crate::category::{
    province_idx, spec_cat_non_pnp, CategoryCode, CategoryPool, CategoryShares,
};
use crate::data::{invites_wf, spec_pool_vec, Invite, Pool, SIZE_LIMIT};
use crate::non_pnp::pools_wf;
use crate::score_pool::{spec_non_pnp, sum_of};
use crate::category::NUM_CATEGORIES;

verus! {

/// Largest accepted invitation-history length for the share analyses; keeps
/// every per-category volume within the amounts `normalize` accepts.
pub const ANALYZER_INVITES_LIMIT: usize = 0x400_0000;

/// Total size of the rounds of `invs` drawn from the category at key
/// position `c`.
pub open spec fn spec_cat_volume(invs: Seq<Invite>, c: int) -> int
    decreases invs.len(),
{
    if invs.len() == 0 {
        0
    } else {
        spec_cat_volume(invs.drop_last(), c) + if invs.last().category.idx() == c {
            invs.last().size as int
        } else {
            0int
        }
    }
}

/// Smallest positive general-pool total among the first `i` snapshots, or
/// zero when no snapshot has a positive general-pool total.
pub open spec fn spec_min_pos_den(pools: Seq<Pool>, i: int) -> int
    decreases
        (if i >= 0 {
            i
        } else {
            0
        }),
{
    if i <= 0 {
        0
    } else {
        let m = spec_min_pos_den(pools, i - 1);
        let t = sum_of(spec_non_pnp(spec_pool_vec(&pools[i - 1])));
        if t > 0 && (m == 0 || t < m) {
            t
        } else {
            m
        }
    }
}

/// The category analyzer.
pub struct CategoryAnalyzer;

impl CategoryAnalyzer {
    /// Each category's total invitation volume over the given rounds.
    pub fn invite_per_category(invite_data: &[Invite]) -> (r: CategoryPool)
        requires
            invites_wf(invite_data@),
            invite_data@.len() <= ANALYZER_INVITES_LIMIT,
        ensures
            r.wf(),
            forall|c: int|
                0 <= c < NUM_CATEGORIES ==> #[trigger] r@[c] == spec_cat_volume(invite_data@, c),
            forall|c: int|
                0 <= c < NUM_CATEGORIES ==> #[trigger] r@[c] <= invite_data@.len() * (
                SIZE_LIMIT as int),
    {
        let ghost invs = invite_data@;
        let mut r = CategoryPool::zero();
        let mut i: usize = 0;
        while i < invite_data.len()
            invariant
                i <= invs.len(),
                invs == invite_data@,
                invites_wf(invs),
                invs.len() <= ANALYZER_INVITES_LIMIT,
                r.wf(),
                forall|c: int|
                    0 <= c < NUM_CATEGORIES ==> #[trigger] r@[c] == spec_cat_volume(
                        invs.subrange(0, i as int),
                        c,
                    ),
                forall|c: int|
                    0 <= c < NUM_CATEGORIES ==> 0 <= #[trigger] r@[c] <= (i as int) * (
                    SIZE_LIMIT as int),
            decreases invs.len() - i,
        {
            proof {
                let pre = invs.subrange(0, i as int);
                assert(invs.subrange(0, i as int + 1).drop_last() =~= pre);
                assert(invs.subrange(0, i as int + 1).last() == invs[i as int]);
                assert(invs[i as int].wf());
                assert((i as int + 1) * (SIZE_LIMIT as int) == (i as int) * (SIZE_LIMIT as int)
                    + SIZE_LIMIT as int) by (nonlinear_arith);
                vstd::arithmetic::mul::lemma_mul_inequality(
                    i as int,
                    ANALYZER_INVITES_LIMIT as int,
                    SIZE_LIMIT as int,
                );
            }
            let inv = &invite_data[i];
            let ghost prev_view = r@;
            let cur = r.get(inv.category);
            r.set(inv.category, cur + inv.size);
            proof {
                assert(r@ == prev_view.update(inv.category.idx(), (cur + inv.size) as int));
                assert forall|c: int| 0 <= c < NUM_CATEGORIES implies #[trigger] r@[c]
                    == spec_cat_volume(invs.subrange(0, i as int + 1), c) by {
                    if c == inv.category.idx() {
                        assert(r@[c] == prev_view[c] + inv.size);
                    } else {
                        assert(r@[c] == prev_view[c]);
                    }
                }
            }
            i = i + 1;
        }
        proof {
            assert(invs.subrange(0, invs.len() as int) =~= invs);
        }
        r
    }

    /// Each category's share of the general pool: its volume over the
    /// smallest positive general-pool total among the snapshots. That is the
    /// largest share any snapshot supports, the conservative estimate over
    /// the window; a category without volume, and every category when no
    /// snapshot has a positive general-pool total, gets a zero share. The
    /// province category is excluded.
    pub fn percent_per_category(pool_data: &[Pool], invite_data: &[Invite]) -> (r: CategoryShares)
        requires
            pools_wf(pool_data@),
            invites_wf(invite_data@),
            invite_data@.len() <= ANALYZER_INVITES_LIMIT,
        ensures
            r.wf(),
            forall|c: int|
                0 <= c < NUM_CATEGORIES ==> {
                    let m = spec_min_pos_den(pool_data@, pool_data@.len() as int);
                    let v = spec_cat_non_pnp(
                        Seq::new(
                            NUM_CATEGORIES as nat,
                            |k: int| spec_cat_volume(invite_data@, k),
                        ),
                    )[c];
                    if m > 0 && v > 0 {
                        (#[trigger] r.num@[c]) as int == v && r.den@[c] as int == m
                    } else {
                        r.num@[c] == 0u64 && r.den@[c] == 1u64
                    }
                },
    {
        let ghost pools = pool_data@;
        let volumes = Self::invite_per_category(invite_data);
        let nonpnp = volumes.non_pnp();
        let mut m: i64 = 0;
        let mut i: usize = 0;
        while i < pool_data.len()
            invariant
                i <= pools.len(),
                pools == pool_data@,
                pools_wf(pools),
                m as int == spec_min_pos_den(pools, i as int),
                m >= 0,
            decreases pools.len() - i,
        {
            proof {
                assert(pools[i as int].wf());
            }
            let sp = pool_data[i].to_score_pool();
            let gen = sp.non_pnp();
            let t = gen.total();
            proof {
                crate::score_pool::lemma_sum_bounded(gen@, crate::data::COUNT_LIMIT as int);
                assert(gen@ =~= spec_non_pnp(spec_pool_vec(&pools[i as int])));
            }
            if t > 0 && (m == 0 || t < m) {
                m = t;
            }
            i = i + 1;
        }
        proof {
            assert(volumes@ =~= Seq::new(
                NUM_CATEGORIES as nat,
                |k: int| spec_cat_volume(invite_data@, k),
            ));
        }
        let mut num: Vec<u64> = Vec::new();
        let mut den: Vec<u64> = Vec::new();
        let mut c: usize = 0;
        while c < NUM_CATEGORIES
            invariant
                c <= NUM_CATEGORIES,
                pools == pool_data@,
                m >= 0,
                m as int == spec_min_pos_den(pools, pools.len() as int),
                nonpnp.wf(),
                nonpnp@ == spec_cat_non_pnp(
                    Seq::new(NUM_CATEGORIES as nat, |k: int| spec_cat_volume(invite_data@, k)),
                ),
                num@.len() == c,
                den@.len() == c,
                forall|k: int|
                    0 <= k < c && m as int > 0 && nonpnp@[k] > 0 ==> (#[trigger] num@[k]) as int
                        == nonpnp@[k],
                forall|k: int|
                    0 <= k < c && !(m as int > 0 && nonpnp@[k] > 0) ==> (#[trigger] num@[k])
                        == 0u64,
                forall|k: int|
                    0 <= k < c ==> (#[trigger] den@[k]) as int == (if m as int > 0 && nonpnp@[k]
                        > 0 {
                        m as int
                    } else {
                        1int
                    }),
            decreases NUM_CATEGORIES - c,
        {
            let v = nonpnp.values[c];
            proof {
                assert(v as int == nonpnp@[c as int]);
            }
            if m > 0 && v > 0 {
                num.push(v);
                den.push(m as u64);
            } else {
                num.push(0);
                den.push(1);
            }
            c = c + 1;
        }
        let r = CategoryShares { num, den };
        proof {
            assert forall|k: int| 0 <= k < r.den@.len() implies #[trigger] r.den@[k] >= 1u64 by {
                assert(r.den@[k] as int == (if m as int > 0 && nonpnp@[k] > 0 {
                    m as int
                } else {
                    1int
                }));
            }
        }
        r
    }

    /// The categories observed in the given rounds, in key order, the
    /// province category excluded: those with a positive invitation volume.
    pub fn observed_categories(invite_data: &[Invite]) -> (r: Vec<CategoryCode>)
        requires
            invites_wf(invite_data@),
            invite_data@.len() <= ANALYZER_INVITES_LIMIT,
        ensures
            r@ == spec_observed(invite_data@, NUM_CATEGORIES as int),
    {
        let volumes = Self::invite_per_category(invite_data);
        let mut r: Vec<CategoryCode> = Vec::new();
        let mut c: usize = 0;
        while c < NUM_CATEGORIES
            invariant
                c <= NUM_CATEGORIES,
                volumes.wf(),
                forall|k: int|
                    0 <= k < NUM_CATEGORIES ==> #[trigger] volumes@[k] == spec_cat_volume(
                        invite_data@,
                        k,
                    ),
                r@ == spec_observed(invite_data@, c as int),
            decreases NUM_CATEGORIES - c,
        {
            let code = match CategoryCode::from_index(c) {
                Ok(code) => code,
                Err(_) => CategoryCode::General,
            };
            proof {
                assert(code.idx() == c as int);
            }
            let v = volumes.get(code);
            if v > 0 && c != 1 {
                proof {
                    assert(c as int != province_idx());
                }
                r.push(code);
            }
            proof {
                assert(r@ =~= spec_observed(invite_data@, c as int + 1));
            }
            c = c + 1;
        }
        r
    }
}

/// The smallest positive general-pool total is never negative.
pub proof fn lemma_min_den_nonneg(pools: Seq<Pool>, i: int)
    ensures
        spec_min_pos_den(pools, i) >= 0,
    decreases
        (if i >= 0 {
            i
        } else {
            0
        }),
{
    if i > 0 {
        lemma_min_den_nonneg(pools, i - 1);
    }
}

/// With no positive volume anywhere, no category is observed.
pub proof fn lemma_observed_none(invs: Seq<Invite>, c: int)
    requires
        forall|k: int| 0 <= k < c ==> spec_cat_volume(invs, k) <= 0,
    ensures
        spec_observed(invs, c) == Seq::<CategoryCode>::empty(),
    decreases
        (if c >= 0 {
            c
        } else {
            0
        }),
{
    if c > 0 {
        lemma_observed_none(invs, c - 1);
        assert(spec_observed(invs, c) =~= Seq::<CategoryCode>::empty());
    } else {
        assert(spec_observed(invs, c) =~= Seq::<CategoryCode>::empty());
    }
}

/// Per-category volumes are never negative.
pub proof fn lemma_cat_volume_nonneg(invs: Seq<Invite>, c: int)
    ensures
        spec_cat_volume(invs, c) >= 0,
    decreases invs.len(),
{
    if invs.len() > 0 {
        lemma_cat_volume_nonneg(invs.drop_last(), c);
    }
}

/// The category at key position `c`.
pub open spec fn spec_code_at(c: int) -> CategoryCode {
    if c == 0 {
        CategoryCode::General
    } else if c == 1 {
        CategoryCode::Province
    } else if c == 2 {
        CategoryCode::Trade
    } else if c == 3 {
        CategoryCode::Health
    } else if c == 4 {
        CategoryCode::French
    } else if c == 5 {
        CategoryCode::Stem
    } else if c == 6 {
        CategoryCode::Agriculture
    } else {
        CategoryCode::Education
    }
}

/// The non-province categories with positive volume among the first `c` key
/// positions, in key order.
pub open spec fn spec_observed(invs: Seq<Invite>, c: int) -> Seq<CategoryCode>
    decreases
        (if c >= 0 {
            c
        } else {
            0
        }),
{
    if c <= 0 {
        Seq::empty()
    } else {
        spec_observed(invs, c - 1) + if c - 1 != province_idx() && spec_cat_volume(invs, c - 1)
            > 0 {
            seq![spec_code_at(c - 1)]
        } else {
            Seq::empty()
        }
    }
}

} // verus!
