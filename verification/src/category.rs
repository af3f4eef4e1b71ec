//! Award categories and fixed-key per-category aggregates.
//!
//! [`CategoryCode`] is the closed enumeration of award streams; `Province` is
//! the province-specific stream, excluded from all general-pool reasoning.
//! [`CategoryPool`] maps every category to a scalar; [`CategoryShares`] maps
//! every category to a fraction, kept as an exact numerator and denominator.

use vstd::prelude::*;

use crate::score_pool::sum_of;

verus! {

/// Number of award categories in the closed enumeration.
pub const NUM_CATEGORIES: usize = 8;

/// The closed enumeration of award streams.
#[derive(Clone, Copy, Debug, PartialEq, Eq, Structural)]
pub enum CategoryCode {
    /// General draw from the whole pool.
    General,
    /// Province-specific stream; excluded from general-pool reasoning.
    Province,
    /// Trade occupations stream.
    Trade,
    /// Health occupations stream.
    Health,
    /// French-language proficiency stream.
    French,
    /// Science and engineering occupations stream.
    Stem,
    /// Agriculture occupations stream.
    Agriculture,
    /// Education occupations stream.
    Education,
}

impl CategoryCode {
    /// Position of the category in the fixed key order.
    pub open spec fn idx(self) -> int {
        match self {
            CategoryCode::General => 0,
            CategoryCode::Province => 1,
            CategoryCode::Trade => 2,
            CategoryCode::Health => 3,
            CategoryCode::French => 4,
            CategoryCode::Stem => 5,
            CategoryCode::Agriculture => 6,
            CategoryCode::Education => 7,
        }
    }

    /// Position of the category in the fixed key order.
    pub fn index(self) -> (r: usize)
        ensures
            r == self.idx(),
            r < NUM_CATEGORIES,
    {
        match self {
            CategoryCode::General => 0,
            CategoryCode::Province => 1,
            CategoryCode::Trade => 2,
            CategoryCode::Health => 3,
            CategoryCode::French => 4,
            CategoryCode::Stem => 5,
            CategoryCode::Agriculture => 6,
            CategoryCode::Education => 7,
        }
    }

    /// The category at position `i` of the key order; an index outside the
    /// closed enumeration is an unknown category.
    pub fn from_index(i: usize) -> (r: Result<CategoryCode, crate::AnalyzeError>)
        ensures
            match r {
                Ok(c) => i < NUM_CATEGORIES && c.idx() == i,
                Err(e) => e == crate::AnalyzeError::UnknownCategory && i >= NUM_CATEGORIES,
            },
    {
        if i == 0 {
            Ok(CategoryCode::General)
        } else if i == 1 {
            Ok(CategoryCode::Province)
        } else if i == 2 {
            Ok(CategoryCode::Trade)
        } else if i == 3 {
            Ok(CategoryCode::Health)
        } else if i == 4 {
            Ok(CategoryCode::French)
        } else if i == 5 {
            Ok(CategoryCode::Stem)
        } else if i == 6 {
            Ok(CategoryCode::Agriculture)
        } else if i == 7 {
            Ok(CategoryCode::Education)
        } else {
            Err(crate::AnalyzeError::UnknownCategory)
        }
    }
}

/// Index of the province category in the fixed key order.
pub open spec fn province_idx() -> int {
    CategoryCode::Province.idx()
}

/// A fixed-key mapping from category to a scalar value.
#[derive(Debug)]
pub struct CategoryPool {
    /// Per-category values in the fixed key order.
    pub values: Vec<u64>,
}

impl View for CategoryPool {
    type V = Seq<int>;

    open spec fn view(&self) -> Seq<int> {
        Seq::new(self.values@.len() as nat, |i: int| self.values@[i] as int)
    }
}

/// The sequence with the province entry zeroed.
pub open spec fn spec_cat_non_pnp(s: Seq<int>) -> Seq<int> {
    Seq::new(s.len(), |i: int| if i == province_idx() { 0 } else { s[i] })
}

impl CategoryPool {
    /// The mapping has one entry per category of the closed enumeration.
    pub open spec fn wf(&self) -> bool {
        self@.len() == NUM_CATEGORIES
    }

    /// The mapping with every entry at zero.
    pub fn zero() -> (r: CategoryPool)
        ensures
            r.wf(),
            forall|i: int| 0 <= i < r@.len() ==> r@[i] == 0,
    {
        let mut values: Vec<u64> = Vec::new();
        let mut i: usize = 0;
        while i < NUM_CATEGORIES
            invariant
                i <= NUM_CATEGORIES,
                values@.len() == i,
                forall|k: int| 0 <= k < i ==> values@[k] == 0u64,
            decreases NUM_CATEGORIES - i,
        {
            values.push(0);
            i = i + 1;
        }
        CategoryPool { values }
    }

    /// The value held for category `c`.
    pub fn get(&self, c: CategoryCode) -> (r: u64)
        requires
            self.wf(),
        ensures
            r == self@[c.idx()],
    {
        self.values[c.index()]
    }

    /// Replaces the value held for category `c`.
    pub fn set(&mut self, c: CategoryCode, v: u64)
        requires
            old(self).wf(),
        ensures
            final(self).wf(),
            final(self)@ == old(self)@.update(c.idx(), v as int),
    {
        let i = c.index();
        self.values.set(i, v);
        proof {
            assert(self@ =~= old(self)@.update(c.idx(), v as int));
        }
    }

    /// Per-category maximum of two mappings.
    pub fn max(&self, other: &CategoryPool) -> (r: CategoryPool)
        requires
            self.wf(),
            other.wf(),
        ensures
            r.wf(),
            forall|i: int|
                0 <= i < r@.len() ==> r@[i] == (if self@[i] >= other@[i] {
                    self@[i]
                } else {
                    other@[i]
                }),
    {
        let mut values: Vec<u64> = Vec::new();
        let mut i: usize = 0;
        while i < NUM_CATEGORIES
            invariant
                i <= NUM_CATEGORIES,
                self.wf(),
                other.wf(),
                values@.len() == i,
                forall|k: int|
                    0 <= k < i ==> values@[k] as int == (if self@[k] >= other@[k] {
                        self@[k]
                    } else {
                        other@[k]
                    }),
            decreases NUM_CATEGORIES - i,
        {
            let a = self.values[i];
            let b = other.values[i];
            let v = if a >= b {
                a
            } else {
                b
            };
            values.push(v);
            i = i + 1;
        }
        CategoryPool { values }
    }

    /// The mapping with the province entry zeroed.
    pub fn non_pnp(&self) -> (r: CategoryPool)
        requires
            self.wf(),
        ensures
            r.wf(),
            r@ == spec_cat_non_pnp(self@),
    {
        let mut values: Vec<u64> = Vec::new();
        let mut i: usize = 0;
        while i < NUM_CATEGORIES
            invariant
                i <= NUM_CATEGORIES,
                self.wf(),
                values@.len() == i,
                forall|k: int|
                    0 <= k < i ==> values@[k] as int == (if k == province_idx() {
                        0
                    } else {
                        self@[k]
                    }),
            decreases NUM_CATEGORIES - i,
        {
            let v = if i == 1 {
                0
            } else {
                self.values[i]
            };
            values.push(v);
            i = i + 1;
        }
        let r = CategoryPool { values };
        proof {
            assert(r@ =~= spec_cat_non_pnp(self@));
        }
        r
    }

    /// Turns per-category amounts into shares of their sum: the numerators
    /// are the amounts and the common denominator is the total, so the shares
    /// sum to exactly one; when the total is zero every share is zero over a
    /// denominator of one.
    pub fn normalize(&self) -> (r: CategoryShares)
        requires
            self.wf(),
            forall|i: int| 0 <= i < self@.len() ==> #[trigger] self@[i] <= VOLUME_LIMIT as int,
        ensures
            r.wf(),
            sum_of(self@) > 0 ==> r.num@ == self.values@ && (forall|i: int|
                0 <= i < r.den@.len() ==> r.den@[i] as int == sum_of(self@)),
            sum_of(self@) == 0 ==> (forall|i: int| 0 <= i < r.num@.len() ==> r.num@[i] == 0u64)
                && (forall|i: int| 0 <= i < r.den@.len() ==> r.den@[i] == 1u64),
    {
        let mut total: u64 = 0;
        let mut i: usize = 0;
        while i < NUM_CATEGORIES
            invariant
                i <= NUM_CATEGORIES,
                self.wf(),
                forall|k: int| 0 <= k < self@.len() ==> #[trigger] self@[k] <= VOLUME_LIMIT as int,
                total == sum_of(self@.subrange(0, i as int)),
                total <= (i as int) * (VOLUME_LIMIT as int),
            decreases NUM_CATEGORIES - i,
        {
            proof {
                let pre = self@.subrange(0, i as int);
                assert(self@[i as int] == self.values@[i as int] as int);
                assert(self@[i as int] >= 0);
                crate::score_pool::lemma_sum_push(pre, self@[i as int]);
                assert(pre.push(self@[i as int]) =~= self@.subrange(0, i as int + 1));
                assert((i as int + 1) * (VOLUME_LIMIT as int) == (i as int) * (VOLUME_LIMIT as int)
                    + VOLUME_LIMIT as int) by (nonlinear_arith);
            }
            total = total + self.values[i];
            i = i + 1;
        }
        proof {
            assert(self@.subrange(0, NUM_CATEGORIES as int) =~= self@);
            crate::score_pool::lemma_sum_nonneg(self@);
        }
        if total == 0 {
            let mut num: Vec<u64> = Vec::new();
            let mut den: Vec<u64> = Vec::new();
            let mut k: usize = 0;
            while k < NUM_CATEGORIES
                invariant
                    k <= NUM_CATEGORIES,
                    num@.len() == k,
                    den@.len() == k,
                    forall|j: int| 0 <= j < k ==> num@[j] == 0u64,
                    forall|j: int| 0 <= j < k ==> den@[j] == 1u64,
                decreases NUM_CATEGORIES - k,
            {
                num.push(0);
                den.push(1);
                k = k + 1;
            }
            CategoryShares { num, den }
        } else {
            let mut den: Vec<u64> = Vec::new();
            let mut k: usize = 0;
            while k < NUM_CATEGORIES
                invariant
                    k <= NUM_CATEGORIES,
                    den@.len() == k,
                    forall|j: int| 0 <= j < k ==> den@[j] == total,
                decreases NUM_CATEGORIES - k,
            {
                den.push(total);
                k = k + 1;
            }
            let num = self.values.clone();
            proof {
                assert(num@ == self.values@);
            }
            CategoryShares { num, den }
        }
    }
}

/// Largest per-category amount [`CategoryPool::normalize`] accepts; keeps the
/// total inside `u64`.
pub const VOLUME_LIMIT: u64 = 0x1000_0000_0000_0000;

/// A fixed-key mapping from category to an exact fraction, one numerator and
/// one denominator per category; denominators are at least one.
#[derive(Debug)]
pub struct CategoryShares {
    /// Per-category numerators in the fixed key order.
    pub num: Vec<u64>,
    /// Per-category denominators in the fixed key order.
    pub den: Vec<u64>,
}

/// Whether fraction `n1 / d1` is at least fraction `n2 / d2`.
pub open spec fn share_ge(n1: int, d1: int, n2: int, d2: int) -> bool {
    n1 * d2 >= n2 * d1
}

impl CategoryShares {
    /// One fraction per category, every denominator positive.
    pub open spec fn wf(&self) -> bool {
        &&& self.num@.len() == NUM_CATEGORIES
    &&& self.den@.len() == NUM_CATEGORIES
        &&& forall|i: int| 0 <= i < self.den@.len() ==> #[trigger] self.den@[i] >= 1u64
    }

    /// The share mapping with every fraction at zero.
    pub fn zero() -> (r: CategoryShares)
        ensures
            r.wf(),
            forall|i: int| 0 <= i < r.num@.len() ==> r.num@[i] == 0u64,
            forall|i: int| 0 <= i < r.den@.len() ==> r.den@[i] == 1u64,
    {
        let mut num: Vec<u64> = Vec::new();
        let mut den: Vec<u64> = Vec::new();
        let mut k: usize = 0;
        while k < NUM_CATEGORIES
            invariant
                k <= NUM_CATEGORIES,
                num@.len() == k,
                den@.len() == k,
                forall|j: int| 0 <= j < k ==> num@[j] == 0u64,
                forall|j: int| 0 <= j < k ==> den@[j] == 1u64,
            decreases NUM_CATEGORIES - k,
        {
            num.push(0);
            den.push(1);
            k = k + 1;
        }
        CategoryShares { num, den }
    }

    /// Numerator of the fraction held for category `c`.
    pub fn num_of(&self, c: CategoryCode) -> (r: u64)
        requires
            self.wf(),
        ensures
            r == self.num@[c.idx()],
    {
        self.num[c.index()]
    }

    /// Denominator of the fraction held for category `c`.
    pub fn den_of(&self, c: CategoryCode) -> (r: u64)
        requires
            self.wf(),
        ensures
            r == self.den@[c.idx()],
    {
        self.den[c.index()]
    }

    /// Per-category maximum of two share mappings: for each category, the
    /// larger fraction of the two, the first on a tie.
    pub fn max(&self, other: &CategoryShares) -> (r: CategoryShares)
        requires
            self.wf(),
            other.wf(),
        ensures
            r.wf(),
            forall|i: int|
                0 <= i < NUM_CATEGORIES ==> (if share_ge(
                    self.num@[i] as int,
                    self.den@[i] as int,
                    other.num@[i] as int,
                    other.den@[i] as int,
                ) {
                    r.num@[i] == self.num@[i] && r.den@[i] == self.den@[i]
                } else {
                    r.num@[i] == other.num@[i] && r.den@[i] == other.den@[i]
                }),
    {
        let mut num: Vec<u64> = Vec::new();
        let mut den: Vec<u64> = Vec::new();
        let mut i: usize = 0;
        while i < NUM_CATEGORIES
            invariant
                i <= NUM_CATEGORIES,
                self.wf(),
                other.wf(),
                num@.len() == i,
                den@.len() == i,
                forall|k: int|
                    0 <= k < i ==> (if share_ge(
                        self.num@[k] as int,
                        self.den@[k] as int,
                        other.num@[k] as int,
                        other.den@[k] as int,
                    ) {
                        num@[k] == self.num@[k] && den@[k] == self.den@[k]
                    } else {
                        num@[k] == other.num@[k] && den@[k] == other.den@[k]
                    }),
            decreases NUM_CATEGORIES - i,
        {
            proof {
                vstd::arithmetic::mul::lemma_mul_upper_bound(
                    self.num@[i as int] as int,
                    u64::MAX as int,
                    other.den@[i as int] as int,
                    u64::MAX as int,
                );
                vstd::arithmetic::mul::lemma_mul_upper_bound(
                    other.num@[i as int] as int,
                    u64::MAX as int,
                    self.den@[i as int] as int,
                    u64::MAX as int,
                );
            }
            let lhs: u128 = (self.num[i] as u128) * (other.den[i] as u128);
            let rhs: u128 = (other.num[i] as u128) * (self.den[i] as u128);
            if lhs >= rhs {
                num.push(self.num[i]);
                den.push(self.den[i]);
            } else {
                num.push(other.num[i]);
                den.push(other.den[i]);
            }
            i = i + 1;
        }
        CategoryShares { num, den }
    }
}

/// Shares produced by normalizing a non-empty amount vector sum to exactly
/// one: the numerators add up to the common denominator.
pub proof fn lemma_shares_sum_to_one(amounts: CategoryPool, shares: CategoryShares)
    requires
        amounts.wf(),
        sum_of(amounts@) > 0,
        shares.num@ == amounts.values@,
        forall|i: int| 0 <= i < shares.den@.len() ==> shares.den@[i] as int == sum_of(amounts@),
        shares.den@.len() > 0,
    ensures
        sum_of(Seq::new(shares.num@.len() as nat, |i: int| shares.num@[i] as int)) == shares.den@[0],
{
    assert(Seq::new(shares.num@.len() as nat, |i: int| shares.num@[i] as int) =~= amounts@);
}

} // verus!
