use analyzer::category::{CategoryCode, NUM_CATEGORIES};
use analyzer::category_analyzer::CategoryAnalyzer;
use analyzer::data::{Invite, Plan, Pool};
use analyzer::non_pnp::PnpRemover;
use analyzer::predict::Predictor;
use analyzer::rate::RateAnalyzer;
use chrono::Datelike;

fn day(y: i32, m: u32, d: u32) -> i64 {
    chrono::NaiveDate::from_ymd_opt(y, m, d).unwrap().num_days_from_ce() as i64
}

fn pool(date: i64, bands: [u64; 7]) -> Pool {
    Pool { date, bands: bands.to_vec() }
}

#[test]
fn round_before_any_snapshot_passes_through_unchanged() {
    // with no snapshot to seed the running pool, a non-province round keeps
    // its size; a province round is dropped regardless
    let invites = vec![Invite {
        date: day(2023, 1, 2),
        category: CategoryCode::General,
        size: 10,
    }];
    let out = PnpRemover::remove_pnp(&[], &invites);
    assert_eq!(out.len(), 1);
    assert_eq!(out[0].size, 10);
    assert_eq!(out[0].date, invites[0].date);

    let province = vec![Invite {
        date: day(2023, 1, 2),
        category: CategoryCode::Province,
        size: 10,
    }];
    let out = PnpRemover::remove_pnp(&[], &province);
    assert!(out.is_empty());
}

#[test]
fn separator_reexpresses_sizes_and_drops_province_rounds() {
    let pools = vec![pool(day(2023, 1, 1), [10, 20, 0, 0, 0, 0, 0])];
    let invites = vec![
        // consumes 10 province-band units and 5 general units
        Invite { date: day(2023, 1, 10), category: CategoryCode::General, size: 15 },
        // consumed for pool state but never emitted
        Invite { date: day(2023, 1, 20), category: CategoryCode::Province, size: 5 },
        // sees the pool the province round reduced
        Invite { date: day(2023, 1, 25), category: CategoryCode::Trade, size: 3 },
    ];
    let out = PnpRemover::remove_pnp(&pools, &invites);
    assert_eq!(out.len(), 2);
    assert_eq!(out[0].size, 5);
    assert_eq!(out[0].date, day(2023, 1, 10));
    assert_eq!(out[1].size, 3);
    // no province round in the output, and the interval volume matches the
    // non-province amounts the rounds consumed
    assert!(out.iter().all(|i| i.category != CategoryCode::Province));
    let total: u64 = out.iter().map(|i| i.size).sum();
    assert_eq!(total, 5 + 3);
}

#[test]
fn separator_reseeds_from_the_latest_snapshot() {
    // a newer snapshot replaces the running pool before the next round
    let pools = vec![
        pool(day(2023, 1, 1), [0, 4, 0, 0, 0, 0, 0]),
        pool(day(2023, 2, 1), [0, 100, 0, 0, 0, 0, 0]),
    ];
    let invites = vec![
        // consumes the whole first snapshot: only 4 units available
        Invite { date: day(2023, 1, 10), category: CategoryCode::General, size: 30 },
        // sees the fresh second snapshot, not the drained first one
        Invite { date: day(2023, 2, 10), category: CategoryCode::General, size: 30 },
    ];
    let out = PnpRemover::remove_pnp(&pools, &invites);
    assert_eq!(out.len(), 2);
    assert_eq!(out[0].size, 4);
    assert_eq!(out[1].size, 30);
}

#[test]
fn pool_increase_rate_uses_conservation() {
    let pools = vec![
        pool(day(2023, 1, 1), [0, 100, 0, 0, 0, 0, 0]),
        pool(day(2023, 1, 11), [0, 150, 0, 0, 0, 0, 0]),
    ];
    let invites = vec![Invite {
        date: day(2023, 1, 5),
        category: CategoryCode::General,
        size: 20,
    }];
    let samples = RateAnalyzer::pool_increase_rate(&pools, &invites);
    assert_eq!(samples.len(), 1);
    assert_eq!(samples[0].date, day(2023, 1, 11));
    assert_eq!(samples[0].days, 10);
    // entries = pool change (50) plus what the round consumed (20)
    assert_eq!(samples[0].entries.band(1), 70);
    assert_eq!(samples[0].entries.band(0), 0);

    let rate = RateAnalyzer::projected_rate(&samples);
    assert_eq!(rate.den, 10);
    assert_eq!(rate.num.band(1), 70);
}

#[test]
fn projected_rate_without_samples_is_zero() {
    let rate = RateAnalyzer::projected_rate(&Vec::new());
    assert_eq!(rate.den, 1);
    for b in 0..7 {
        assert_eq!(rate.num.band(b), 0);
    }
}

#[test]
fn category_analyzer_counts_volumes_and_observes_categories() {
    let invites = vec![
        Invite { date: day(2023, 2, 1), category: CategoryCode::General, size: 60 },
        Invite { date: day(2023, 3, 1), category: CategoryCode::Trade, size: 25 },
        Invite { date: day(2023, 4, 1), category: CategoryCode::General, size: 15 },
        Invite { date: day(2023, 5, 1), category: CategoryCode::Province, size: 99 },
    ];
    let volumes = CategoryAnalyzer::invite_per_category(&invites);
    assert_eq!(volumes.get(CategoryCode::General), 75);
    assert_eq!(volumes.get(CategoryCode::Trade), 25);
    assert_eq!(volumes.get(CategoryCode::Province), 99);

    // the province category is never observed
    let cats = CategoryAnalyzer::observed_categories(&invites);
    assert_eq!(cats, vec![CategoryCode::General, CategoryCode::Trade]);

    // pool share: volume over the smallest positive general-pool total
    let pools = vec![
        pool(day(2023, 1, 1), [5, 100, 100, 0, 0, 0, 0]),
        pool(day(2023, 6, 1), [5, 50, 100, 0, 0, 0, 0]),
    ];
    let shares = CategoryAnalyzer::percent_per_category(&pools, &invites);
    assert_eq!(shares.num_of(CategoryCode::General), 75);
    assert_eq!(shares.den_of(CategoryCode::General), 150);
    assert_eq!(shares.num_of(CategoryCode::Province), 0);
    assert_eq!(shares.den_of(CategoryCode::Province), 1);
}

#[test]
fn empty_history_is_reported() {
    let plans: Vec<Plan> = Vec::new();
    let r = Predictor::predict(&[], &[], &plans);
    assert!(matches!(r, Err(analyzer::AnalyzeError::EmptyHistory)));
}

#[test]
fn zero_plan_forecast_predicts_zero_cutoffs() {
    // one snapshot, no rounds, a flat zero entry rate and all-zero plans:
    // every forecast date predicts cutoff zero for every category
    let pools = vec![pool(day(2023, 1, 1), [0, 0, 0, 100, 0, 0, 0])];
    let plans = vec![Plan::new(2023, 0, 0), Plan::new(2024, 0, 0)];
    let (labels, values, cats) = Predictor::predict(&pools, &[], &plans).unwrap();
    assert!(!labels.is_empty());
    assert!(cats.is_empty());
    assert_eq!(labels.len(), values.len());
    // forecasts start past the anchor and step by fourteen days
    assert_eq!(labels[0], day(2023, 1, 1) + 17);
    for k in 1..labels.len() {
        assert_eq!(labels[k] - labels[k - 1], 14);
    }
    assert!(*labels.last().unwrap() < day(2023, 1, 1) + 365);
    for v in &values {
        for i in 0..NUM_CATEGORIES {
            let c = CategoryCode::from_index(i).unwrap();
            assert_eq!(v.get(c), 0);
        }
    }
}

#[test]
fn identical_inputs_give_identical_forecasts() {
    let pools = vec![
        pool(day(2023, 1, 1), [10, 300, 400, 500, 0, 0, 0]),
        pool(day(2023, 3, 1), [10, 350, 420, 510, 0, 0, 0]),
    ];
    let invites = vec![
        Invite { date: day(2023, 2, 1), category: CategoryCode::General, size: 200 },
        Invite { date: day(2023, 3, 15), category: CategoryCode::Trade, size: 50 },
        Invite { date: day(2023, 4, 1), category: CategoryCode::Province, size: 30 },
    ];
    let plans = analyzer::data::all_plan();
    let (l1, v1, c1) = Predictor::predict(&pools, &invites, &plans).unwrap();
    let (l2, v2, c2) = Predictor::predict(&pools, &invites, &plans).unwrap();
    assert_eq!(l1, l2);
    assert_eq!(c1, c2);
    assert_eq!(v1.len(), v2.len());
    for k in 0..v1.len() {
        for i in 0..NUM_CATEGORIES {
            let c = CategoryCode::from_index(i).unwrap();
            assert_eq!(v1[k].get(c), v2[k].get(c));
        }
    }
}

#[test]
fn forecast_cutoffs_stay_on_the_score_scale() {
    let pools = vec![pool(day(2023, 1, 1), [10, 300, 400, 500, 600, 700, 800])];
    let invites = vec![
        Invite { date: day(2023, 2, 1), category: CategoryCode::General, size: 200 },
        Invite { date: day(2023, 2, 15), category: CategoryCode::French, size: 80 },
    ];
    let plans = analyzer::data::all_plan();
    let (labels, values, cats) = Predictor::predict(&pools, &invites, &plans).unwrap();
    assert!(!labels.is_empty());
    assert!(cats.contains(&CategoryCode::General));
    assert!(cats.contains(&CategoryCode::French));
    assert!(!cats.contains(&CategoryCode::Province));
    for v in &values {
        for i in 0..NUM_CATEGORIES {
            let c = CategoryCode::from_index(i).unwrap();
            assert!(v.get(c) <= 1_200_000);
        }
    }
}
