//! Input records: pool snapshots, invitation rounds and annual plans, with
//! the pure queries over them that the presentation layer consumes.

use vstd::prelude::*;
use vstd::string::StringSliceAdditionalSpecFns;

use crate::category::CategoryCode;
use crate::date::{wf_day, year_of};
use crate::score_pool::ScorePool;
use crate::NUM_BANDS;

verus! {

/// Largest per-band count a pool snapshot may carry.
pub const COUNT_LIMIT: u64 = 0x1_0000_0000;

/// Largest size an invitation round may carry.
pub const SIZE_LIMIT: u64 = 0x1_0000_0000;

/// Largest admission target an annual plan may carry.
pub const PLAN_LIMIT: u64 = 0x1_0000_0000;

/// A point-in-time snapshot of the waiting pool: per-band counts on a date.
#[derive(Debug)]
pub struct Pool {
    /// Day number of the snapshot.
    pub date: i64,
    /// Waiting candidates per score band, highest band first.
    pub bands: Vec<u64>,
}

/// The snapshot's counts as a band vector.
pub open spec fn spec_pool_vec(p: &Pool) -> Seq<int> {
    Seq::new(p.bands@.len() as nat, |i: int| p.bands@[i] as int)
}

impl Pool {
    /// A snapshot carries a day number in range and one bounded count per
    /// band of the schema.
    pub open spec fn wf(&self) -> bool {
        &&& wf_day(self.date as int)
        &&& self.bands@.len() == NUM_BANDS
        &&& forall|i: int| 0 <= i < self.bands@.len() ==> #[trigger] self.bands@[i] <= COUNT_LIMIT
    }

    /// The snapshot's counts as a score-pool vector.
    pub fn to_score_pool(&self) -> (r: ScorePool)
        requires
            self.wf(),
        ensures
            r.wf(),
            r.nonneg(),
            r.bounded(COUNT_LIMIT as int),
            r@ == spec_pool_vec(self),
    {
        let mut bands: Vec<i64> = Vec::new();
        let mut i: usize = 0;
        while i < NUM_BANDS
            invariant
                i <= NUM_BANDS,
                self.wf(),
                bands@.len() == i,
                forall|k: int| 0 <= k < i ==> bands@[k] as int == self.bands@[k] as int,
            decreases NUM_BANDS - i,
        {
            bands.push(self.bands[i] as i64);
            i = i + 1;
        }
        let r = ScorePool { bands };
        proof {
            assert(r@ =~= spec_pool_vec(self));
        }
        r
    }
}

/// A historical invitation round: a number of candidates invited within one
/// category on a date.
#[derive(Clone, Copy, Debug)]
pub struct Invite {
    /// Day number of the round.
    pub date: i64,
    /// Award stream the round drew from.
    pub category: CategoryCode,
    /// Number of candidates invited.
    pub size: u64,
}

impl Invite {
    /// A round carries a day number in range and a bounded size.
    pub open spec fn wf(&self) -> bool {
        &&& wf_day(self.date as int)
        &&& self.size <= SIZE_LIMIT
    }
}

/// A government-published admission target range for one calendar year.
#[derive(Clone, Copy, Debug, PartialEq, Eq, Structural)]
pub struct Plan {
    /// Calendar year the range applies to.
    pub year: i32,
    /// Lower end of the target range.
    pub min: u64,
    /// Upper end of the target range.
    pub max: u64,
}

impl Plan {
    /// A plan carries bounded targets.
    pub open spec fn wf(&self) -> bool {
        self.min <= PLAN_LIMIT && self.max <= PLAN_LIMIT
    }

    /// Builds a plan entry.
    pub fn new(year: i32, min: u64, max: u64) -> (r: Plan)
        ensures
            r.year == year,
            r.min == min,
            r.max == max,
    {
        Plan { year, min, max }
    }
}

/// The published annual admission target table.
pub open spec fn spec_all_plan() -> Seq<Plan> {
    seq![
        (Plan { year: 2015, min: 68000, max: 74000 }),
        (Plan { year: 2016, min: 54000, max: 59000 }),
        (Plan { year: 2017, min: 69600, max: 77300 }),
        (Plan { year: 2018, min: 72700, max: 78200 }),
        (Plan { year: 2019, min: 76000, max: 86000 }),
        (Plan { year: 2020, min: 88500, max: 100000 }),
        (Plan { year: 2021, min: 81000, max: 110250 }),
        (Plan { year: 2022, min: 52000, max: 64000 }),
        (Plan { year: 2023, min: 67750, max: 88000 }),
        (Plan { year: 2024, min: 90000, max: 116000 }),
        (Plan { year: 2025, min: 96500, max: 124000 }),
        (Plan { year: 2026, min: 96500, max: 124000 }),
    ]
}

/// The published annual admission target table.
pub fn all_plan() -> (r: Vec<Plan>)
    ensures
        r@ == spec_all_plan(),
        forall|i: int| 0 <= i < r@.len() ==> (#[trigger] r@[i]).wf(),
{
    let mut r: Vec<Plan> = Vec::new();
    r.push(Plan::new(2015, 68000, 74000));
    r.push(Plan::new(2016, 54000, 59000));
    r.push(Plan::new(2017, 69600, 77300));
    r.push(Plan::new(2018, 72700, 78200));
    r.push(Plan::new(2019, 76000, 86000));
    r.push(Plan::new(2020, 88500, 100000));
    r.push(Plan::new(2021, 81000, 110250));
    r.push(Plan::new(2022, 52000, 64000));
    r.push(Plan::new(2023, 67750, 88000));
    r.push(Plan::new(2024, 90000, 116000));
    r.push(Plan::new(2025, 96500, 124000));
    r.push(Plan::new(2026, 96500, 124000));
    proof {
        assert(r@ =~= spec_all_plan());
    }
    r
}

/// Number of plan entries for year `y`.
pub open spec fn spec_count_year(plans: Seq<Plan>, y: int) -> int
    decreases plans.len(),
{
    if plans.len() == 0 {
        0
    } else {
        spec_count_year(plans.drop_last(), y) + if plans.last().year == y {
            1int
        } else {
            0int
        }
    }
}

/// Sum of `min + max` over the plan entries for year `y`.
pub open spec fn spec_sum_target2(plans: Seq<Plan>, y: int) -> int
    decreases plans.len(),
{
    if plans.len() == 0 {
        0
    } else {
        spec_sum_target2(plans.drop_last(), y) + if plans.last().year == y {
            plans.last().min + plans.last().max
        } else {
            0
        }
    }
}

/// Twice the admission target for year `y`: `min + max` of the plan entry for
/// that year, which is the midpoint target doubled; zero when the table holds
/// no entry or more than one entry for the year (a malformed table counts as
/// no target).
pub open spec fn spec_plan_target2(plans: Seq<Plan>, y: int) -> int {
    if spec_count_year(plans, y) == 1 {
        spec_sum_target2(plans, y)
    } else {
        0
    }
}

/// Largest accepted plan-table length.
pub const PLANS_LIMIT: usize = 0x10_0000;

/// Every plan entry is bounded.
pub open spec fn plans_wf(plans: Seq<Plan>) -> bool {
    forall|i: int| 0 <= i < plans.len() ==> (#[trigger] plans[i]).wf()
}

/// Twice the admission target for year `y` from the plan table; zero when the
/// table holds no entry, or more than one, for the year.
pub fn plan_target_doubled(plans: &Vec<Plan>, y: i32) -> (r: u64)
    requires
        plans_wf(plans@),
        plans@.len() <= PLANS_LIMIT,
    ensures
        r == spec_plan_target2(plans@, y as int),
{
    let mut count: u64 = 0;
    let mut sum: u64 = 0;
    let mut i: usize = 0;
    while i < plans.len()
        invariant
            i <= plans@.len(),
            plans_wf(plans@),
            plans@.len() <= PLANS_LIMIT,
            count == spec_count_year(plans@.subrange(0, i as int), y as int),
            sum == spec_sum_target2(plans@.subrange(0, i as int), y as int),
            count <= i,
            sum <= (i as int) * (2 * PLAN_LIMIT as int),
        decreases plans@.len() - i,
    {
        proof {
            let pre = plans@.subrange(0, i as int);
            assert(plans@.subrange(0, i as int + 1).drop_last() =~= pre);
            assert(plans@.subrange(0, i as int + 1).last() == plans@[i as int]);
            assert(plans@[i as int].wf());
            assert((i as int + 1) * (2 * PLAN_LIMIT as int) == (i as int) * (2 * PLAN_LIMIT as int)
                + 2 * PLAN_LIMIT as int) by (nonlinear_arith);
            vstd::arithmetic::mul::lemma_mul_inequality(
                i as int,
                PLANS_LIMIT as int,
                2 * PLAN_LIMIT as int,
            );
        }
        let p = &plans[i];
        if p.year == y {
            count = count + 1;
            sum = sum + p.min + p.max;
        }
        i = i + 1;
    }
    proof {
        assert(plans@.subrange(0, plans@.len() as int) =~= plans@);
    }
    if count == 1 {
        sum
    } else {
        0
    }
}

/// The target sum for a year is non-negative and at most the number of
/// matching entries times the largest doubled target.
pub proof fn lemma_target2_le_count(plans: Seq<Plan>, y: int)
    requires
        plans_wf(plans),
    ensures
        0 <= spec_count_year(plans, y),
        0 <= spec_sum_target2(plans, y) <= spec_count_year(plans, y) * (2 * PLAN_LIMIT as int),
    decreases plans.len(),
{
    if plans.len() == 0 {
    } else {
        assert(plans_wf(plans.drop_last()));
        lemma_target2_le_count(plans.drop_last(), y);
        assert(plans.last().wf());
        let c0 = spec_count_year(plans.drop_last(), y);
        if plans.last().year == y {
            assert((c0 + 1) * (2 * PLAN_LIMIT as int) == c0 * (2 * PLAN_LIMIT as int) + 2
                * PLAN_LIMIT as int) by (nonlinear_arith);
        }
    }
}

/// Total size of the rounds of sequence `invs` dated in calendar year `y`.
pub open spec fn spec_year_volume(invs: Seq<Invite>, y: int) -> int
    decreases invs.len(),
{
    if invs.len() == 0 {
        0
    } else {
        spec_year_volume(invs.drop_last(), y) + if year_of(invs.last().date as int) == y {
            invs.last().size as int
        } else {
            0int
        }
    }
}

/// Every round is bounded.
pub open spec fn invites_wf(invs: Seq<Invite>) -> bool {
    forall|i: int| 0 <= i < invs.len() ==> (#[trigger] invs[i]).wf()
}

/// Largest accepted invitation-history length.
pub const INVITES_LIMIT: usize = 0x4000_0000;

/// Total number of candidates invited by the rounds dated in year `y`.
pub fn year_total_invited(invites: &Vec<Invite>, y: i32) -> (r: u64)
    requires
        invites_wf(invites@),
        invites@.len() <= INVITES_LIMIT,
    ensures
        r == spec_year_volume(invites@, y as int),
{
    let mut sum: u64 = 0;
    let mut i: usize = 0;
    while i < invites.len()
        invariant
            i <= invites@.len(),
            invites_wf(invites@),
            invites@.len() <= INVITES_LIMIT,
            sum == spec_year_volume(invites@.subrange(0, i as int), y as int),
            sum <= (i as int) * (SIZE_LIMIT as int),
        decreases invites@.len() - i,
    {
        proof {
            let pre = invites@.subrange(0, i as int);
            assert(invites@.subrange(0, i as int + 1).drop_last() =~= pre);
            assert(invites@.subrange(0, i as int + 1).last() == invites@[i as int]);
            assert(invites@[i as int].wf());
            assert((i as int + 1) * (SIZE_LIMIT as int) == (i as int) * (SIZE_LIMIT as int)
                + SIZE_LIMIT as int) by (nonlinear_arith);
            vstd::arithmetic::mul::lemma_mul_inequality(
                i as int,
                INVITES_LIMIT as int,
                SIZE_LIMIT as int,
            );
        }
        let inv = &invites[i];
        let yr = crate::date::year_of_days(inv.date);
        if yr == y {
            sum = sum + inv.size;
        }
        i = i + 1;
    }
    proof {
        assert(invites@.subrange(0, invites@.len() as int) =~= invites@);
    }
    sum
}

/// How far year `y`'s plan is used by the rounds dated in it, in doubled
/// units: twice the invited volume, and what remains of twice the target
/// (zero when the target is already exceeded).
pub fn year_plan_usage(plans: &Vec<Plan>, invites: &Vec<Invite>, y: i32) -> (r: (u64, u64))
    requires
        plans_wf(plans@),
        plans@.len() <= PLANS_LIMIT,
        invites_wf(invites@),
        invites@.len() <= INVITES_LIMIT,
    ensures
        r.0 == 2 * spec_year_volume(invites@, y as int),
        r.1 == (if spec_plan_target2(plans@, y as int) >= 2 * spec_year_volume(invites@, y as int) {
            spec_plan_target2(plans@, y as int) - 2 * spec_year_volume(invites@, y as int)
        } else {
            0int
        }),
{
    let used = year_total_invited(invites, y);
    proof {
        lemma_year_volume_bounded(invites@, y as int);
        vstd::arithmetic::mul::lemma_mul_inequality(
            invites@.len() as int,
            INVITES_LIMIT as int,
            SIZE_LIMIT as int,
        );
    }
    let used2 = 2 * used;
    let target2 = plan_target_doubled(plans, y);
    if target2 >= used2 {
        (used2, target2 - used2)
    } else {
        (used2, 0)
    }
}

/// The volume invited in a year is bounded by the history length times the
/// size bound.
pub proof fn lemma_year_volume_bounded(invs: Seq<Invite>, y: int)
    requires
        invites_wf(invs),
    ensures
        0 <= spec_year_volume(invs, y) <= invs.len() * (SIZE_LIMIT as int),
    decreases invs.len(),
{
    if invs.len() == 0 {
    } else {
        lemma_year_volume_bounded(invs.drop_last(), y);
        assert(invs.drop_last().len() == invs.len() - 1);
        assert(invs.last().wf());
        assert((invs.len() as int) * (SIZE_LIMIT as int) == (invs.len() as int - 1) * (
        SIZE_LIMIT as int) + SIZE_LIMIT as int) by (nonlinear_arith);
    }
}

/// The byte sequence with every comma removed.
pub open spec fn spec_strip(b: Seq<u8>) -> Seq<u8>
    decreases b.len(),
{
    if b.len() == 0 {
        Seq::empty()
    } else {
        spec_strip(b.drop_last()) + (if b.last() == 44 {
            Seq::<u8>::empty()
        } else {
            seq![b.last()]
        })
    }
}

/// Whether a byte is a decimal digit.
pub open spec fn is_digit(c: u8) -> bool {
    48 <= c <= 57
}

/// Every byte is a decimal digit.
pub open spec fn all_digits(s: Seq<u8>) -> bool {
    forall|i: int| 0 <= i < s.len() ==> is_digit(#[trigger] s[i])
}

/// The value of a decimal digit string.
pub open spec fn digits_val(s: Seq<u8>) -> int
    decreases s.len(),
{
    if s.len() == 0 {
        0
    } else {
        digits_val(s.drop_last()) * 10 + (s.last() - 48)
    }
}

/// Length of the sign prefix: one for a leading `+` or `-`, else zero.
pub open spec fn int_sign_len(t: Seq<u8>) -> int {
    if t.len() > 0 && (t[0] == 45 || t[0] == 43) {
        1
    } else {
        0
    }
}

/// Whether the comma-stripped bytes spell a 32-bit integer: an optional sign,
/// at least one digit, and a value in range.
pub open spec fn parse_valid_i32(t: Seq<u8>) -> bool {
    let s0 = int_sign_len(t);
    let digs = t.subrange(s0, t.len() as int);
    &&& t.len() > s0
    &&& all_digits(digs)
    &&& (if t.len() > 0 && t[0] == 45 {
        digits_val(digs) <= 0x8000_0000
    } else {
        digits_val(digs) <= 0x7fff_ffff
    })
}

/// The integer the comma-stripped bytes spell.
pub open spec fn spec_parse_i32(t: Seq<u8>) -> int {
    let s0 = int_sign_len(t);
    let digs = t.subrange(s0, t.len() as int);
    if t.len() > 0 && t[0] == 45 {
        -digits_val(digs)
    } else {
        digits_val(digs)
    }
}

/// A digit string's value is never negative.
pub proof fn lemma_digits_nonneg(s: Seq<u8>)
    requires
        all_digits(s),
    ensures
        digits_val(s) >= 0,
    decreases s.len(),
{
    if s.len() > 0 {
        assert(all_digits(s.drop_last()));
        lemma_digits_nonneg(s.drop_last());
        vstd::arithmetic::mul::lemma_mul_inequality(0, digits_val(s.drop_last()), 10);
    }
}

/// A digit string's value only grows as digits are appended.
pub proof fn lemma_digits_prefix_le(t: Seq<u8>, s0: int, j: int)
    requires
        0 <= s0 <= j <= t.len(),
        all_digits(t.subrange(s0, t.len() as int)),
    ensures
        digits_val(t.subrange(s0, j)) <= digits_val(t.subrange(s0, t.len() as int)),
    decreases t.len() - j,
{
    if j < t.len() {
        let cur = t.subrange(s0, j);
        let next = t.subrange(s0, j + 1);
        assert(next.drop_last() =~= cur);
        assert(all_digits(cur)) by {
            assert forall|i: int| 0 <= i < cur.len() implies is_digit(#[trigger] cur[i]) by {
                assert(cur[i] == t.subrange(s0, t.len() as int)[i]);
            }
        }
        lemma_digits_nonneg(cur);
        assert(next.last() == t[j]);
        assert(t[j] == t.subrange(s0, t.len() as int)[j - s0]);
        assert(digits_val(next) == digits_val(cur) * 10 + (t[j] - 48));
        vstd::arithmetic::mul::lemma_mul_inequality(1, 10, digits_val(cur));
        assert(digits_val(cur) * 1 == digits_val(cur)) by (nonlinear_arith);
        lemma_digits_prefix_le(t, s0, j + 1);
    } else {
        assert(t.subrange(s0, j) =~= t.subrange(s0, t.len() as int));
    }
}

/// Reads a 32-bit integer from a string after discarding commas: an optional
/// sign, then decimal digits. A string that spells no such integer, or one
/// out of range, gives nothing.
#[verifier::loop_isolation(false)]
pub fn parse_i32_checked(x: &str) -> (r: Option<i32>)
    ensures
        match r {
            Some(v) => parse_valid_i32(spec_strip(x.spec_bytes())) && v as int == spec_parse_i32(
                spec_strip(x.spec_bytes()),
            ),
            None => !parse_valid_i32(spec_strip(x.spec_bytes())),
        },
{
    let bytes = x.as_bytes();
    let ghost bs = bytes@;
    let mut t: Vec<u8> = Vec::new();
    let mut i: usize = 0;
    while i < bytes.len()
        invariant
            i <= bs.len(),
            bs == bytes@,
            t@ == spec_strip(bs.subrange(0, i as int)),
        decreases bs.len() - i,
    {
        proof {
            assert(bs.subrange(0, i as int + 1).drop_last() =~= bs.subrange(0, i as int));
            assert(bs.subrange(0, i as int + 1).last() == bs[i as int]);
        }
        let b = bytes[i];
        if b != 44 {
            t.push(b);
        }
        i = i + 1;
    }
    proof {
        assert(bs.subrange(0, bs.len() as int) =~= bs);
    }
    let ghost ts = t@;
    if t.len() == 0 {
        return None;
    }
    let first = t[0];
    let neg = first == 45;
    let s0: usize = if first == 45 || first == 43 {
        1
    } else {
        0
    };
    proof {
        assert(s0 as int == int_sign_len(ts));
    }
    if t.len() == s0 {
        return None;
    }
    let limit: u64 = if neg {
        0x8000_0000
    } else {
        0x7fff_ffff
    };
    let mut acc: u64 = 0;
    let mut j: usize = s0;
    while j < t.len()
        invariant
            s0 <= j <= ts.len(),
            ts == t@,
            acc == digits_val(ts.subrange(s0 as int, j as int)),
            acc <= limit,
            all_digits(ts.subrange(s0 as int, j as int)),
        decreases ts.len() - j,
    {
        proof {
            assert(ts.subrange(s0 as int, j as int + 1).drop_last() =~= ts.subrange(
                s0 as int,
                j as int,
            ));
            assert(ts.subrange(s0 as int, j as int + 1).last() == ts[j as int]);
        }
        let d = t[j];
        if d < 48 || d > 57 {
            proof {
                assert(ts.subrange(s0 as int, ts.len() as int)[j - s0] == ts[j as int]);
                assert(!all_digits(ts.subrange(s0 as int, ts.len() as int)));
            }
            return None;
        }
        let next = acc * 10 + ((d - 48) as u64);
        proof {
            assert(all_digits(ts.subrange(s0 as int, j as int + 1))) by {
                assert forall|k: int|
                    0 <= k < ts.subrange(s0 as int, j as int + 1).len() implies is_digit(
                    #[trigger] ts.subrange(s0 as int, j as int + 1)[k]) by {
                    if k < j - s0 {
                        assert(ts.subrange(s0 as int, j as int + 1)[k] == ts.subrange(
                            s0 as int,
                            j as int,
                        )[k]);
                    }
                }
            }
        }
        if next > limit {
            proof {
                if parse_valid_i32(ts) {
                    lemma_digits_prefix_le(ts, s0 as int, j as int + 1);
                    lemma_digits_nonneg(ts.subrange(s0 as int, ts.len() as int));
                    assert(false);
                }
            }
            return None;
        }
        acc = next;
        j = j + 1;
    }
    proof {
        assert(ts.subrange(s0 as int, j as int) =~= ts.subrange(s0 as int, ts.len() as int));
        assert(parse_valid_i32(ts));
    }
    if neg {
        Some((-(acc as i64)) as i32)
    } else {
        Some(acc as i32)
    }
}

/// Reads a 32-bit integer from a string after discarding commas; the string
/// must spell one.
pub fn parse_i32(x: &str) -> (r: i32)
    requires
        parse_valid_i32(spec_strip(x.spec_bytes())),
    ensures
        r as int == spec_parse_i32(spec_strip(x.spec_bytes())),
{
    match parse_i32_checked(x) {
        Some(v) => v,
        None => {
            proof {
                assert(false);
            }
            0
        },
    }
}

} // verus!
