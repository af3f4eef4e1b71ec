use analyzer::category::CategoryCode;
use analyzer::data::{
    all_plan, parse_i32, parse_i32_checked, plan_target_doubled, year_plan_usage,
    year_total_invited, Invite, Plan,
};
use analyzer::date::{days_in_year, is_leap_year, ordinal0_of_days, week_sunday_start, year_of_days};
use chrono::Datelike;

fn day(y: i32, m: u32, d: u32) -> i64 {
    chrono::NaiveDate::from_ymd_opt(y, m, d).unwrap().num_days_from_ce() as i64
}

#[test]
fn parse_i32_discards_commas() {
    assert_eq!(parse_i32("8,040"), 8040);
    assert_eq!(parse_i32("1,234,567"), 1234567);
    assert_eq!(parse_i32("17"), 17);
}

#[test]
fn parse_i32_reads_signs() {
    assert_eq!(parse_i32("-1,234"), -1234);
    assert_eq!(parse_i32("+25"), 25);
    assert_eq!(parse_i32("0"), 0);
}

#[test]
fn parse_i32_covers_the_full_range() {
    assert_eq!(parse_i32("2147483647"), i32::MAX);
    assert_eq!(parse_i32("-2147483648"), i32::MIN);
}

#[test]
fn parse_i32_checked_rejects_garbage() {
    assert_eq!(parse_i32_checked(""), None);
    assert_eq!(parse_i32_checked("-"), None);
    assert_eq!(parse_i32_checked("12a"), None);
    assert_eq!(parse_i32_checked("2147483648"), None);
    assert_eq!(parse_i32_checked("-2147483649"), None);
    assert_eq!(parse_i32_checked(","), None);
    assert_eq!(parse_i32_checked("1,2"), Some(12));
}

#[test]
fn the_plan_table_is_published() {
    let plans = all_plan();
    assert_eq!(plans.len(), 12);
    assert_eq!(plans[0], Plan::new(2015, 68000, 74000));
    assert_eq!(plans[11], Plan::new(2026, 96500, 124000));
}

#[test]
fn plan_target_is_the_doubled_midpoint_of_the_unique_entry() {
    let plans = all_plan();
    assert_eq!(plan_target_doubled(&plans, 2022), 52000 + 64000);
    // a year without an entry has no target
    assert_eq!(plan_target_doubled(&plans, 1999), 0);
    // a malformed table with two entries for one year counts as no target
    let doubled = vec![Plan::new(2020, 10, 20), Plan::new(2020, 30, 40)];
    assert_eq!(plan_target_doubled(&doubled, 2020), 0);
}

#[test]
fn year_totals_group_rounds_by_calendar_year() {
    let invites = vec![
        Invite { date: day(2022, 3, 1), category: CategoryCode::General, size: 100 },
        Invite { date: day(2022, 11, 30), category: CategoryCode::Trade, size: 50 },
        Invite { date: day(2023, 1, 2), category: CategoryCode::General, size: 70 },
    ];
    assert_eq!(year_total_invited(&invites, 2022), 150);
    assert_eq!(year_total_invited(&invites, 2023), 70);
    assert_eq!(year_total_invited(&invites, 2024), 0);
}

#[test]
fn plan_usage_reports_used_and_unused() {
    let plans = vec![Plan::new(2022, 100, 200)];
    let invites = vec![
        Invite { date: day(2022, 5, 5), category: CategoryCode::General, size: 40 },
    ];
    // doubled units: used 80 of a doubled target of 300
    assert_eq!(year_plan_usage(&plans, &invites, 2022), (80, 220));
    // overuse leaves nothing
    let big = vec![
        Invite { date: day(2022, 5, 5), category: CategoryCode::General, size: 400 },
    ];
    assert_eq!(year_plan_usage(&plans, &big, 2022), (800, 0));
}

#[test]
fn leap_years_follow_the_gregorian_rule() {
    assert!(is_leap_year(2000));
    assert!(!is_leap_year(1900));
    assert!(is_leap_year(2024));
    assert!(!is_leap_year(2023));
    assert_eq!(days_in_year(2024), 366);
    assert_eq!(days_in_year(2025), 365);
}

#[test]
fn calendar_wrappers_match_the_calendar() {
    let d = day(2023, 5, 5);
    assert_eq!(year_of_days(d), 2023);
    assert_eq!(ordinal0_of_days(day(2023, 1, 1)), 0);
    assert_eq!(ordinal0_of_days(day(2023, 2, 1)), 31);
    // 2023-01-01 was a Sunday: its week starts on itself
    assert_eq!(week_sunday_start(day(2023, 1, 1)), day(2023, 1, 1));
    assert_eq!(week_sunday_start(day(2023, 1, 4)), day(2023, 1, 1));
    assert_eq!(week_sunday_start(day(2023, 1, 7)), day(2023, 1, 1));
    assert_eq!(week_sunday_start(day(2023, 1, 8)), day(2023, 1, 8));
}
