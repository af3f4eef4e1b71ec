use analyzer::category::{CategoryCode, CategoryPool, CategoryShares, NUM_CATEGORIES};
use analyzer::AnalyzeError;

#[test]
fn category_index_round_trips() {
    for i in 0..NUM_CATEGORIES {
        let c = CategoryCode::from_index(i).unwrap();
        assert_eq!(c.index(), i);
    }
}

#[test]
fn unknown_category_is_reported() {
    assert!(matches!(
        CategoryCode::from_index(NUM_CATEGORIES),
        Err(AnalyzeError::UnknownCategory)
    ));
    assert!(matches!(
        CategoryCode::from_index(100),
        Err(AnalyzeError::UnknownCategory)
    ));
}

#[test]
fn pool_get_set_and_zero() {
    let mut p = CategoryPool::zero();
    for i in 0..NUM_CATEGORIES {
        let c = CategoryCode::from_index(i).unwrap();
        assert_eq!(p.get(c), 0);
    }
    p.set(CategoryCode::Health, 42);
    assert_eq!(p.get(CategoryCode::Health), 42);
    assert_eq!(p.get(CategoryCode::General), 0);
}

#[test]
fn pool_max_is_per_key() {
    let mut a = CategoryPool::zero();
    let mut b = CategoryPool::zero();
    a.set(CategoryCode::General, 10);
    b.set(CategoryCode::General, 3);
    b.set(CategoryCode::Trade, 7);
    let m = a.max(&b);
    assert_eq!(m.get(CategoryCode::General), 10);
    assert_eq!(m.get(CategoryCode::Trade), 7);
    assert_eq!(m.get(CategoryCode::Stem), 0);
}

#[test]
fn pool_non_pnp_zeroes_the_province_entry() {
    let mut a = CategoryPool::zero();
    a.set(CategoryCode::Province, 9);
    a.set(CategoryCode::French, 4);
    let g = a.non_pnp();
    assert_eq!(g.get(CategoryCode::Province), 0);
    assert_eq!(g.get(CategoryCode::French), 4);
}

#[test]
fn normalized_shares_sum_to_one() {
    // shares are numerators over one common denominator and sum to exactly 1
    let mut a = CategoryPool::zero();
    a.set(CategoryCode::General, 60);
    a.set(CategoryCode::Trade, 25);
    a.set(CategoryCode::French, 15);
    let s = a.normalize();
    let mut num_sum: u64 = 0;
    let mut den = None;
    for i in 0..NUM_CATEGORIES {
        let c = CategoryCode::from_index(i).unwrap();
        num_sum += s.num_of(c);
        match den {
            None => den = Some(s.den_of(c)),
            Some(d) => assert_eq!(s.den_of(c), d),
        }
    }
    assert_eq!(num_sum, den.unwrap());
    assert_eq!(den.unwrap(), 100);
    assert_eq!(s.num_of(CategoryCode::General), 60);
}

#[test]
fn normalize_of_nothing_is_zero_shares() {
    let s = CategoryPool::zero().normalize();
    for i in 0..NUM_CATEGORIES {
        let c = CategoryCode::from_index(i).unwrap();
        assert_eq!(s.num_of(c), 0);
        assert_eq!(s.den_of(c), 1);
    }
}

#[test]
fn shares_max_picks_the_larger_fraction() {
    let a = CategoryShares::zero();
    let mut counts = CategoryPool::zero();
    counts.set(CategoryCode::General, 1);
    counts.set(CategoryCode::Trade, 3);
    let b = counts.normalize(); // general 1/4, trade 3/4
    let m = a.max(&b);
    // zero shares lose against any positive fraction
    assert_eq!(m.num_of(CategoryCode::Trade), 3);
    assert_eq!(m.den_of(CategoryCode::Trade), 4);
    // equal fractions keep the left operand's form
    assert_eq!(m.num_of(CategoryCode::Stem), 0);
    assert_eq!(m.den_of(CategoryCode::Stem), 1);
}
