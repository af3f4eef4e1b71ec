//! Score-banded pool vectors.
//!
//! A [`ScorePool`] is an ordered vector of per-band counts over a fixed band
//! schema, highest score band first. Band 0 is the province band: candidates
//! there hold a provincial nomination. Pools derived from snapshots hold
//! non-negative counts; pools that carry rates may hold negative entries,
//! which callers floor at zero with [`ScorePool::max`] before use.

use vstd::prelude::*;

use crate::NUM_BANDS;

verus! {

/// Largest per-band magnitude the arithmetic over pools accepts; keeps the
/// fixed-point cutoff computation inside `u64`.
pub const BAND_LIMIT: i64 = 0x800_0000_0000;

/// Upper score of band `i`.
pub open spec fn band_hi(i: int) -> int {
    if i == 0 {
        1200
    } else if i == 1 {
        600
    } else if i == 2 {
        500
    } else if i == 3 {
        450
    } else if i == 4 {
        400
    } else if i == 5 {
        350
    } else if i == 6 {
        300
    } else {
        0
    }
}

/// Lower score of band `i`.
pub open spec fn band_lo(i: int) -> int {
    if i == 0 {
        601
    } else if i == 1 {
        501
    } else if i == 2 {
        451
    } else if i == 3 {
        401
    } else if i == 4 {
        351
    } else if i == 5 {
        301
    } else {
        0
    }
}

/// Whether band `i` holds provincially nominated candidates.
pub open spec fn is_province_band(i: int) -> bool {
    i == 0
}

/// Upper score of band `i`.
pub fn band_hi_at(i: usize) -> (r: u32)
    requires
        i < NUM_BANDS,
    ensures
        r == band_hi(i as int),
{
    if i == 0 {
        1200
    } else if i == 1 {
        600
    } else if i == 2 {
        500
    } else if i == 3 {
        450
    } else if i == 4 {
        400
    } else if i == 5 {
        350
    } else {
        300
    }
}

/// Lower score of band `i`.
pub fn band_lo_at(i: usize) -> (r: u32)
    requires
        i < NUM_BANDS,
    ensures
        r == band_lo(i as int),
{
    if i == 0 {
        601
    } else if i == 1 {
        501
    } else if i == 2 {
        451
    } else if i == 3 {
        401
    } else if i == 4 {
        351
    } else if i == 5 {
        301
    } else {
        0
    }
}

/// The smaller of two integers.
pub open spec fn min_int(a: int, b: int) -> int {
    if a <= b {
        a
    } else {
        b
    }
}

/// Sum of a sequence of band counts.
pub open spec fn sum_of(s: Seq<int>) -> int
    decreases s.len(),
{
    if s.len() == 0 {
        0
    } else {
        s[0] + sum_of(s.subrange(1, s.len() as int))
    }
}

/// Per-band amounts consumed when `n` units are taken from the top band down,
/// each band clipped at its count.
pub open spec fn spec_invite(s: Seq<int>, n: int) -> Seq<int>
    decreases s.len(),
{
    if s.len() == 0 {
        Seq::empty()
    } else {
        let t = min_int(n, s[0]);
        seq![t] + spec_invite(s.subrange(1, s.len() as int), n - t)
    }
}

/// Every entry is at least zero.
pub open spec fn nonneg_seq(s: Seq<int>) -> bool {
    forall|i: int| 0 <= i < s.len() ==> s[i] >= 0
}

/// Every entry has magnitude at most `m`.
pub open spec fn bounded_seq(s: Seq<int>, m: int) -> bool {
    forall|i: int| 0 <= i < s.len() ==> -m <= #[trigger] s[i] <= m
}

/// Pointwise sum of two equally long vectors.
pub open spec fn spec_add(a: Seq<int>, b: Seq<int>) -> Seq<int> {
    Seq::new(a.len(), |i: int| a[i] + b[i])
}

/// Pointwise difference of two equally long vectors.
pub open spec fn spec_sub(a: Seq<int>, b: Seq<int>) -> Seq<int> {
    Seq::new(a.len(), |i: int| a[i] - b[i])
}

/// Pointwise maximum of two equally long vectors.
pub open spec fn spec_max(a: Seq<int>, b: Seq<int>) -> Seq<int> {
    Seq::new(a.len(), |i: int| if a[i] >= b[i] { a[i] } else { b[i] })
}

/// The vector with the province band zeroed.
pub open spec fn spec_non_pnp(s: Seq<int>) -> Seq<int> {
    Seq::new(s.len(), |i: int| if is_province_band(i) { 0 } else { s[i] })
}

/// The vector with every band but the province band zeroed.
pub open spec fn spec_pnp(s: Seq<int>) -> Seq<int> {
    Seq::new(s.len(), |i: int| if is_province_band(i) { s[i] } else { 0 })
}

/// Index of the lowest band that `c` consumed from, or -1 if none.
pub open spec fn last_consumed(c: Seq<int>) -> int
    decreases c.len(),
{
    if c.len() == 0 {
        -1
    } else if c[c.len() - 1] > 0 {
        c.len() - 1
    } else {
        last_consumed(c.subrange(0, c.len() - 1))
    }
}

/// Cutoff score, in thousandths of a point, implied by issuing `n`
/// invitations against pool `s`, top band down: the upper score of the lowest
/// band reached, less the fraction of that band the draw consumes; zero when
/// nothing is consumed.
pub open spec fn spec_score_of_invite(s: Seq<int>, n: int) -> int {
    let c = spec_invite(s, n);
    let i = last_consumed(c);
    if i < 0 {
        0
    } else {
        band_hi(i) * 1000 - (band_hi(i) - band_lo(i)) * 1000 * c[i] / s[i]
    }
}

/// An ordered vector of per-band counts, highest score band first.
#[derive(Debug)]
pub struct ScorePool {
    /// Per-band counts, highest score band first.
    pub bands: Vec<i64>,
}

impl View for ScorePool {
    type V = Seq<int>;

    open spec fn view(&self) -> Seq<int> {
        Seq::new(self.bands@.len() as nat, |i: int| self.bands@[i] as int)
    }
}

impl ScorePool {
    /// The vector has one entry per band of the schema.
    pub open spec fn wf(&self) -> bool {
        self@.len() == NUM_BANDS
    }

    /// All bands are non-negative.
    pub open spec fn nonneg(&self) -> bool {
        nonneg_seq(self@)
    }

    /// All bands have magnitude at most `m`.
    pub open spec fn bounded(&self, m: int) -> bool {
        bounded_seq(self@, m)
    }

    /// The pool with every band at zero.
    pub fn zero() -> (r: ScorePool)
        ensures
            r.wf(),
            forall|i: int| 0 <= i < r@.len() ==> r@[i] == 0,
    {
        let mut bands: Vec<i64> = Vec::new();
        let mut i: usize = 0;
        while i < NUM_BANDS
            invariant
                i <= NUM_BANDS,
                bands@.len() == i,
                forall|k: int| 0 <= k < i ==> bands@[k] == 0i64,
            decreases NUM_BANDS - i,
        {
            bands.push(0);
            i = i + 1;
        }
        ScorePool { bands }
    }

    /// Builds a pool from per-band counts; rejects a vector whose band count
    /// does not match the schema.
    pub fn from_bands(bands: Vec<i64>) -> (r: Result<ScorePool, crate::AnalyzeError>)
        ensures
            match r {
                Ok(p) => p.wf() && p@.len() == bands@.len() && (forall|i: int|
                    0 <= i < bands@.len() ==> p@[i] == bands@[i]),
                Err(e) => e == crate::AnalyzeError::ShapeMismatch && bands@.len() != NUM_BANDS,
            },
    {
        if bands.len() != NUM_BANDS {
            Err(crate::AnalyzeError::ShapeMismatch)
        } else {
            Ok(ScorePool { bands })
        }
    }

    /// The count of band `i`.
    pub fn band(&self, i: usize) -> (r: i64)
        requires
            i < self@.len(),
        ensures
            r == self@[i as int],
    {
        self.bands[i]
    }

    /// Number of bands.
    pub fn len(&self) -> (r: usize)
        ensures
            r == self@.len(),
    {
        self.bands.len()
    }

    /// Elementwise sum.
    pub fn add(&self, other: &ScorePool) -> (r: ScorePool)
        requires
            self.wf(),
            other.wf(),
            forall|i: int|
                0 <= i < self@.len() ==> i64::MIN <= #[trigger] self@[i] + other@[i] <= i64::MAX,
        ensures
            r.wf(),
            r@ == spec_add(self@, other@),
    {
        let mut bands: Vec<i64> = Vec::new();
        let mut i: usize = 0;
        while i < NUM_BANDS
            invariant
                i <= NUM_BANDS,
                self.wf(),
                other.wf(),
                forall|k: int|
                    0 <= k < self@.len() ==> i64::MIN <= #[trigger] self@[k] + other@[k] <= i64::MAX,
                bands@.len() == i,
                forall|k: int| 0 <= k < i ==> bands@[k] == self@[k] + other@[k],
            decreases NUM_BANDS - i,
        {
            proof {
                assert(self@[i as int] == self.bands@[i as int] as int);
                assert(other@[i as int] == other.bands@[i as int] as int);
            }
            let v = self.bands[i] + other.bands[i];
            bands.push(v);
            i = i + 1;
        }
        let r = ScorePool { bands };
        proof {
            assert(r@ =~= spec_add(self@, other@));
        }
        r
    }

    /// Elementwise difference.
    pub fn sub(&self, other: &ScorePool) -> (r: ScorePool)
        requires
            self.wf(),
            other.wf(),
            forall|i: int|
                0 <= i < self@.len() ==> i64::MIN <= #[trigger] self@[i] - other@[i] <= i64::MAX,
        ensures
            r.wf(),
            r@ == spec_sub(self@, other@),
    {
        let mut bands: Vec<i64> = Vec::new();
        let mut i: usize = 0;
        while i < NUM_BANDS
            invariant
                i <= NUM_BANDS,
                self.wf(),
                other.wf(),
                forall|k: int|
                    0 <= k < self@.len() ==> i64::MIN <= #[trigger] self@[k] - other@[k] <= i64::MAX,
                bands@.len() == i,
                forall|k: int| 0 <= k < i ==> bands@[k] == self@[k] - other@[k],
            decreases NUM_BANDS - i,
        {
            proof {
                assert(self@[i as int] == self.bands@[i as int] as int);
                assert(other@[i as int] == other.bands@[i as int] as int);
            }
            let v = self.bands[i] - other.bands[i];
            bands.push(v);
            i = i + 1;
        }
        let r = ScorePool { bands };
        proof {
            assert(r@ =~= spec_sub(self@, other@));
        }
        r
    }

    /// Elementwise multiplication by a scalar.
    pub fn scale(&self, k: i64) -> (r: ScorePool)
        requires
            self.wf(),
            forall|i: int|
                0 <= i < self@.len() ==> i64::MIN <= #[trigger] self@[i] * k <= i64::MAX,
        ensures
            r.wf(),
            r@.len() == self@.len(),
            forall|i: int| 0 <= i < self@.len() ==> r@[i] == self@[i] * k,
    {
        let mut bands: Vec<i64> = Vec::new();
        let mut i: usize = 0;
        while i < NUM_BANDS
            invariant
                i <= NUM_BANDS,
                self.wf(),
                forall|k2: int|
                    0 <= k2 < self@.len() ==> i64::MIN <= #[trigger] self@[k2] * k <= i64::MAX,
                bands@.len() == i,
                forall|k2: int| 0 <= k2 < i ==> bands@[k2] == self@[k2] * k,
            decreases NUM_BANDS - i,
        {
            proof {
                assert(self@[i as int] == self.bands@[i as int] as int);
            }
            let v = self.bands[i] * k;
            bands.push(v);
            i = i + 1;
        }
        ScorePool { bands }
    }

    /// Elementwise maximum.
    pub fn max(&self, other: &ScorePool) -> (r: ScorePool)
        requires
            self.wf(),
            other.wf(),
        ensures
            r.wf(),
            r@ == spec_max(self@, other@),
    {
        let mut bands: Vec<i64> = Vec::new();
        let mut i: usize = 0;
        while i < NUM_BANDS
            invariant
                i <= NUM_BANDS,
                self.wf(),
                other.wf(),
                bands@.len() == i,
                forall|k: int|
                    0 <= k < i ==> bands@[k] == (if self@[k] >= other@[k] {
                        self@[k]
                    } else {
                        other@[k]
                    }),
            decreases NUM_BANDS - i,
        {
            let a = self.bands[i];
            let b = other.bands[i];
            let v = if a >= b {
                a
            } else {
                b
            };
            bands.push(v);
            i = i + 1;
        }
        let r = ScorePool { bands };
        proof {
            assert(r@ =~= spec_max(self@, other@));
        }
        r
    }

    /// The pool restricted to its general (non-province) bands.
    pub fn non_pnp(&self) -> (r: ScorePool)
        requires
            self.wf(),
        ensures
            r.wf(),
            r@ == spec_non_pnp(self@),
    {
        let mut bands: Vec<i64> = Vec::new();
        let mut i: usize = 0;
        while i < NUM_BANDS
            invariant
                i <= NUM_BANDS,
                self.wf(),
                bands@.len() == i,
                forall|k: int|
                    0 <= k < i ==> bands@[k] == (if is_province_band(k) {
                        0
                    } else {
                        self@[k]
                    }),
            decreases NUM_BANDS - i,
        {
            let v = if i == 0 {
                0
            } else {
                self.bands[i]
            };
            bands.push(v);
            i = i + 1;
        }
        let r = ScorePool { bands };
        proof {
            assert(r@ =~= spec_non_pnp(self@));
        }
        r
    }

    /// The pool restricted to its province bands.
    pub fn pnp(&self) -> (r: ScorePool)
        requires
            self.wf(),
        ensures
            r.wf(),
            r@ == spec_pnp(self@),
    {
        let mut bands: Vec<i64> = Vec::new();
        let mut i: usize = 0;
        while i < NUM_BANDS
            invariant
                i <= NUM_BANDS,
                self.wf(),
                bands@.len() == i,
                forall|k: int|
                    0 <= k < i ==> bands@[k] == (if is_province_band(k) {
                        self@[k]
                    } else {
                        0
                    }),
            decreases NUM_BANDS - i,
        {
            let v = if i == 0 {
                self.bands[i]
            } else {
                0
            };
            bands.push(v);
            i = i + 1;
        }
        let r = ScorePool { bands };
        proof {
            assert(r@ =~= spec_pnp(self@));
        }
        r
    }

    /// Sum of all bands.
    pub fn total(&self) -> (r: i64)
        requires
            self.wf(),
            self.bounded(BAND_LIMIT as int),
        ensures
            r == sum_of(self@),
    {
        let mut acc: i64 = 0;
        let mut i: usize = 0;
        while i < NUM_BANDS
            invariant
                i <= NUM_BANDS,
                self.wf(),
                self.bounded(BAND_LIMIT as int),
                acc == sum_of(self@.subrange(0, i as int)),
            decreases NUM_BANDS - i,
        {
            proof {
                let pre = self@.subrange(0, i as int);
                assert(bounded_seq(pre, BAND_LIMIT as int));
                lemma_sum_bounded(pre, BAND_LIMIT as int);
                vstd::arithmetic::mul::lemma_mul_inequality(
                    pre.len() as int,
                    NUM_BANDS as int,
                    BAND_LIMIT as int,
                );
                assert(self@[i as int] == self.bands@[i as int] as int);
                lemma_sum_push(pre, self@[i as int]);
                assert(pre.push(self@[i as int]) =~= self@.subrange(0, i as int + 1));
            }
            acc = acc + self.bands[i];
            i = i + 1;
        }
        proof {
            assert(self@.subrange(0, NUM_BANDS as int) =~= self@);
        }
        acc
    }

    /// Consumes `n` units from the top band down, clipping each band at its
    /// count, and returns the per-band consumed amounts.
    pub fn invite(&self, n: u64) -> (r: ScorePool)
        requires
            self.wf(),
            self.nonneg(),
            self.bounded(BAND_LIMIT as int),
        ensures
            r.wf(),
            r@ == spec_invite(self@, n as int),
            r.nonneg(),
            r.bounded(BAND_LIMIT as int),
            forall|i: int| 0 <= i < r@.len() ==> r@[i] <= self@[i],
    {
        let mut bands: Vec<i64> = Vec::new();
        let mut remaining: u64 = n;
        let mut i: usize = 0;
        while i < NUM_BANDS
            invariant
                i <= NUM_BANDS,
                self.wf(),
                self.nonneg(),
                self.bounded(BAND_LIMIT as int),
                bands@.len() == i,
                remaining <= n,
                Seq::new(bands@.len() as nat, |k: int| bands@[k] as int) == spec_invite(
                    self@.subrange(0, i as int),
                    n as int,
                ),
                remaining == n - sum_of(spec_invite(self@.subrange(0, i as int), n as int)),
                forall|k: int| 0 <= k < i ==> 0 <= #[trigger] bands@[k] as int <= self@[k],
            decreases NUM_BANDS - i,
        {
            let band = self.bands[i];
            let take: u64 = if remaining <= band as u64 {
                remaining
            } else {
                band as u64
            };
            proof {
                lemma_invite_push(
                    self@.subrange(0, i as int),
                    self@[i as int],
                    n as int,
                );
                assert(self@.subrange(0, i as int).push(self@[i as int]) =~= self@.subrange(
                    0,
                    i as int + 1,
                ));
                lemma_sum_push(
                    spec_invite(self@.subrange(0, i as int), n as int),
                    min_int(
                        n as int - sum_of(spec_invite(self@.subrange(0, i as int), n as int)),
                        self@[i as int],
                    ),
                );
            }
            bands.push(take as i64);
            remaining = remaining - take;
            i = i + 1;
            proof {
                assert(Seq::new(bands@.len() as nat, |k: int| bands@[k] as int) =~= spec_invite(
                    self@.subrange(0, i as int),
                    n as int,
                ));
            }
        }
        let r = ScorePool { bands };
        proof {
            assert(self@.subrange(0, NUM_BANDS as int) =~= self@);
            assert(r@ =~= spec_invite(self@, n as int));
        }
        r
    }

    /// Cutoff score, in thousandths of a point, implied by issuing `n`
    /// invitations against this pool.
    pub fn score_of_invite(&self, n: u64) -> (r: u64)
        requires
            self.wf(),
            self.nonneg(),
            self.bounded(BAND_LIMIT as int),
        ensures
            r == spec_score_of_invite(self@, n as int),
    {
        let consumed = self.invite(n);
        let ghost c = spec_invite(self@, n as int);
        proof {
            assert(c.len() == NUM_BANDS);
            assert(c.subrange(0, NUM_BANDS as int) =~= c);
        }
        let mut j: usize = NUM_BANDS;
        while j > 0
            invariant
                j <= NUM_BANDS,
                self.wf(),
                self.nonneg(),
                self.bounded(BAND_LIMIT as int),
                consumed.wf(),
                consumed@ == c,
                c == spec_invite(self@, n as int),
                consumed.nonneg(),
                consumed.bounded(BAND_LIMIT as int),
                forall|i: int| 0 <= i < c.len() ==> c[i] <= self@[i],
                last_consumed(c) == last_consumed(c.subrange(0, j as int)),
            decreases j,
        {
            let cj = consumed.bands[j - 1];
            proof {
                assert(cj as int == c[j - 1]);
            }
            if cj > 0 {
                proof {
                    assert(c.subrange(0, j as int)[j - 1] == c[j - 1]);
                    assert(last_consumed(c.subrange(0, j as int)) == j - 1);
                    assert(c[j - 1] <= self@[j - 1]);
                }
                let sj = self.bands[j - 1];
                proof {
                    assert(sj as int == self@[j - 1]);
                    assert(0 < cj as int <= sj as int <= BAND_LIMIT as int);
                }
                let hi = band_hi_at(j - 1) as u64;
                let lo = band_lo_at(j - 1) as u64;
                proof {
                    assert(band_lo(j - 1) <= band_hi(j - 1) <= 1200);
                    assert(band_hi(j - 1) - band_lo(j - 1) <= 599);
                }
                let wid1000: u64 = (hi - lo) * 1000;
                proof {
                    assert((wid1000 as int) * (cj as int) <= 599000 * (BAND_LIMIT as int))
                        by (nonlinear_arith)
                        requires
                            0 <= wid1000 as int <= 599000,
                            0 <= cj as int <= BAND_LIMIT as int,
                    ;
                }
                let part: u64 = wid1000 * (cj as u64) / (sj as u64);
                proof {
                    let w = (band_hi(j - 1) - band_lo(j - 1)) * 1000;
                    assert(w == wid1000 as int);
                    vstd::arithmetic::mul::lemma_mul_inequality(cj as int, sj as int, w);
                    vstd::arithmetic::mul::lemma_mul_is_commutative(cj as int, w);
                    vstd::arithmetic::mul::lemma_mul_is_commutative(sj as int, w);
                    vstd::arithmetic::div_mod::lemma_div_is_ordered(
                        w * (cj as int),
                        w * (sj as int),
                        sj as int,
                    );
                    vstd::arithmetic::div_mod::lemma_div_by_multiple(w, sj as int);
                    assert(part as int == w * (cj as int) / (sj as int));
                    assert(part <= w);
                    assert(last_consumed(c) == j - 1);
                    let ci = spec_invite(self@, n as int);
                    let ii = last_consumed(ci);
                    assert(ci == c);
                    assert(ii == j - 1);
                    assert(ii >= 0);
                    assert(spec_score_of_invite(self@, n as int) == band_hi(ii) * 1000 - (band_hi(
                        ii,
                    ) - band_lo(ii)) * 1000 * ci[ii] / self@[ii]);
                    assert((band_hi(ii) - band_lo(ii)) * 1000 * ci[ii] == w * (cj as int));
                    assert(self@[ii] == sj as int);
                }
                return hi * 1000 - part;
            }
            proof {
                assert(c.subrange(0, j as int).subrange(0, j - 1) =~= c.subrange(0, j - 1));
                assert(c.subrange(0, j as int)[j - 1] == c[j - 1]);
                assert(last_consumed(c.subrange(0, j as int)) == last_consumed(
                    c.subrange(0, j - 1),
                ));
            }
            j = j - 1;
        }
        proof {
            assert(c.subrange(0, 0) =~= Seq::<int>::empty());
            assert(last_consumed(c) == -1);
        }
        0
    }
}

/// Appending an entry adds it to the sum.
pub proof fn lemma_sum_push(s: Seq<int>, x: int)
    ensures
        sum_of(s.push(x)) == sum_of(s) + x,
    decreases s.len(),
{
    if s.len() == 0 {
        assert(s.push(x)[0] == x);
        assert(s.push(x).subrange(1, 1) =~= Seq::<int>::empty());
        assert(sum_of(Seq::<int>::empty()) == 0);
        assert(sum_of(s.push(x)) == x + sum_of(s.push(x).subrange(1, 1)));
        assert(sum_of(s) == 0);
    } else {
        assert(s.push(x)[0] == s[0]);
        assert(s.push(x).subrange(1, s.len() as int + 1) =~= s.subrange(1, s.len() as int).push(x));
        lemma_sum_push(s.subrange(1, s.len() as int), x);
        assert(sum_of(s) == s[0] + sum_of(s.subrange(1, s.len() as int)));
        assert(sum_of(s.push(x)) == s[0] + sum_of(s.subrange(1, s.len() as int).push(x)));
    }
}

/// The sum is bounded by the length times the entry bound.
pub proof fn lemma_sum_bounded(s: Seq<int>, m: int)
    requires
        bounded_seq(s, m),
        m >= 0,
    ensures
        sum_of(s) <= s.len() * m,
        -sum_of(s) <= s.len() * m,
    decreases s.len(),
{
    if s.len() == 0 {
    } else {
        let rest = s.subrange(1, s.len() as int);
        assert(bounded_seq(rest, m));
        lemma_sum_bounded(rest, m);
        assert(sum_of(s) == s[0] + sum_of(rest));
        assert(-m <= s[0] <= m);
        assert(sum_of(s) <= s.len() * m && -sum_of(s) <= s.len() * m) by (nonlinear_arith)
            requires
                sum_of(rest) <= rest.len() * m,
                -sum_of(rest) <= rest.len() * m,
                rest.len() == s.len() - 1,
                -m <= s[0] <= m,
                sum_of(s) == s[0] + sum_of(rest),
                m >= 0,
        ;
    }
}

/// A pointwise smaller vector has a smaller sum.
pub proof fn lemma_sum_le(a: Seq<int>, b: Seq<int>)
    requires
        a.len() == b.len(),
        forall|i: int| 0 <= i < a.len() ==> a[i] <= b[i],
    ensures
        sum_of(a) <= sum_of(b),
    decreases a.len(),
{
    if a.len() > 0 {
        let a1 = a.subrange(1, a.len() as int);
        let b1 = b.subrange(1, b.len() as int);
        assert(forall|i: int| 0 <= i < a1.len() ==> a1[i] <= b1[i]);
        lemma_sum_le(a1, b1);
    }
}

/// Sums of non-negative vectors are non-negative.
pub proof fn lemma_sum_nonneg(s: Seq<int>)
    requires
        nonneg_seq(s),
    ensures
        sum_of(s) >= 0,
    decreases s.len(),
{
    if s.len() > 0 {
        lemma_sum_nonneg(s.subrange(1, s.len() as int));
    }
}

/// How a top-down draw extends when one band is appended to the pool.
pub proof fn lemma_invite_push(s: Seq<int>, x: int, n: int)
    requires
        n >= 0,
        nonneg_seq(s),
        x >= 0,
    ensures
        spec_invite(s.push(x), n) == spec_invite(s, n).push(
            min_int(n - sum_of(spec_invite(s, n)), x),
        ),
        0 <= sum_of(spec_invite(s, n)) <= n,
    decreases s.len(),
{
    if s.len() == 0 {
        assert(spec_invite(s, n) =~= Seq::<int>::empty());
        let p = s.push(x);
        assert(p.len() == 1);
        assert(p[0] == x);
        let t = min_int(n, x);
        assert(p.subrange(1, 1) =~= Seq::<int>::empty());
        assert(spec_invite(p, n) == seq![t] + spec_invite(p.subrange(1, 1), n - t));
        assert(spec_invite(Seq::<int>::empty(), n - t) == Seq::<int>::empty());
        assert(spec_invite(p.subrange(1, 1), n - t) == Seq::<int>::empty());
        assert(spec_invite(p, n) =~= seq![t]);
        assert(spec_invite(s, n).push(t) =~= seq![t]);
    } else {
        let t0 = min_int(n, s[0]);
        let s1 = s.subrange(1, s.len() as int);
        assert(s.push(x)[0] == s[0]);
        assert(s.push(x).subrange(1, s.len() as int + 1) =~= s1.push(x));
        lemma_invite_push(s1, x, n - t0);
        let tail = spec_invite(s1, n - t0);
        assert(spec_invite(s, n) == seq![t0] + tail);
        lemma_sum_cons(t0, tail);
        assert(spec_invite(s.push(x), n) == seq![t0] + tail.push(
            min_int(n - t0 - sum_of(tail), x),
        ));
        assert(seq![t0] + tail.push(min_int(n - t0 - sum_of(tail), x)) =~= (seq![t0] + tail).push(
            min_int(n - t0 - sum_of(tail), x),
        ));
    }
}

/// Prepending an entry adds it to the sum.
pub proof fn lemma_sum_cons(x: int, s: Seq<int>)
    ensures
        sum_of(seq![x] + s) == x + sum_of(s),
{
    let joined = seq![x] + s;
    assert(joined[0] == x);
    assert(joined.subrange(1, joined.len() as int) =~= s);
}

/// Splitting a pool into its general and province parts loses nothing: the
/// two parts add back to the original pool exactly.
pub proof fn lemma_split_recombines(s: Seq<int>)
    ensures
        spec_add(spec_non_pnp(s), spec_pnp(s)) =~= s,
{
}

/// A draw that stays within the pool total consumes exactly its size, and
/// never takes more from a band than the band holds.
pub proof fn lemma_invite_exact(s: Seq<int>, n: int)
    requires
        nonneg_seq(s),
        0 <= n <= sum_of(s),
    ensures
        sum_of(spec_invite(s, n)) == n,
        spec_invite(s, n).len() == s.len(),
        forall|i: int| 0 <= i < s.len() ==> 0 <= #[trigger] spec_invite(s, n)[i] <= s[i],
    decreases s.len(),
{
    lemma_invite_shape(s, n);
    if s.len() == 0 {
    } else {
        let t0 = min_int(n, s[0]);
        let s1 = s.subrange(1, s.len() as int);
        assert(sum_of(s) == s[0] + sum_of(s1));
        lemma_sum_nonneg(s1);
        lemma_invite_exact(s1, n - t0);
        lemma_sum_cons(t0, spec_invite(s1, n - t0));
        assert forall|i: int| 0 <= i < s.len() implies 0 <= #[trigger] spec_invite(s, n)[i] <= s[i] by {
            if i > 0 {
                assert(spec_invite(s, n)[i] == spec_invite(s1, n - t0)[i - 1]);
                assert(s1[i - 1] == s[i]);
            }
        }
    }
}

/// A top-down draw has one consumed amount per band, each between zero and
/// the band's count.
pub proof fn lemma_invite_shape(s: Seq<int>, n: int)
    requires
        nonneg_seq(s),
        n >= 0,
    ensures
        spec_invite(s, n).len() == s.len(),
        forall|i: int| 0 <= i < s.len() ==> 0 <= #[trigger] spec_invite(s, n)[i] <= s[i],
        0 <= sum_of(spec_invite(s, n)) <= n,
    decreases s.len(),
{
    if s.len() == 0 {
        assert(spec_invite(s, n) =~= Seq::<int>::empty());
    } else {
        let t0 = min_int(n, s[0]);
        let s1 = s.subrange(1, s.len() as int);
        lemma_invite_shape(s1, n - t0);
        lemma_sum_cons(t0, spec_invite(s1, n - t0));
        assert forall|i: int| 0 <= i < s.len() implies 0 <= #[trigger] spec_invite(s, n)[i] <= s[i] by {
            if i > 0 {
                assert(spec_invite(s, n)[i] == spec_invite(s1, n - t0)[i - 1]);
                assert(s1[i - 1] == s[i]);
            }
        }
    }
}

/// A draw of the whole pool total consumes every band to zero: the consumed
/// amounts equal the pool itself.
pub proof fn lemma_invite_all(s: Seq<int>)
    requires
        nonneg_seq(s),
    ensures
        spec_invite(s, sum_of(s)) =~= s,
{
    lemma_sum_nonneg(s);
    lemma_invite_saturated(s, sum_of(s));
}

/// Each entry of a non-negative vector is at most the vector's sum.
pub proof fn lemma_elem_le_sum(s: Seq<int>, i: int)
    requires
        nonneg_seq(s),
        0 <= i < s.len(),
    ensures
        s[i] <= sum_of(s),
    decreases s.len(),
{
    let rest = s.subrange(1, s.len() as int);
    if i == 0 {
        lemma_sum_nonneg(rest);
    } else {
        lemma_elem_le_sum(rest, i - 1);
    }
}

/// An all-zero vector sums to zero.
pub proof fn lemma_sum_zero(s: Seq<int>)
    requires
        forall|i: int| 0 <= i < s.len() ==> s[i] == 0,
    ensures
        sum_of(s) == 0,
    decreases s.len(),
{
    if s.len() > 0 {
        lemma_sum_zero(s.subrange(1, s.len() as int));
    }
}

/// Two draws that both exhaust the pool imply the same cutoff.
pub proof fn lemma_score_clamp(s: Seq<int>, n1: int, n2: int)
    requires
        nonneg_seq(s),
        n1 >= sum_of(s),
        n2 >= sum_of(s),
    ensures
        spec_score_of_invite(s, n1) == spec_score_of_invite(s, n2),
{
    lemma_invite_saturated(s, n1);
    lemma_invite_saturated(s, n2);
    assert(spec_invite(s, n1) == spec_invite(s, n2));
}

/// A draw at least as large as the pool total consumes the whole pool.
pub proof fn lemma_invite_saturated(s: Seq<int>, n: int)
    requires
        nonneg_seq(s),
        n >= sum_of(s),
    ensures
        spec_invite(s, n) =~= s,
    decreases s.len(),
{
    if s.len() == 0 {
    } else {
        let s1 = s.subrange(1, s.len() as int);
        lemma_sum_nonneg(s1);
        let t0 = min_int(n, s[0]);
        assert(t0 == s[0]);
        lemma_invite_saturated(s1, n - t0);
        assert(spec_invite(s, n) =~= s);
    }
}

} // verus!
