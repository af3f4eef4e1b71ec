use analyzer::score_pool::ScorePool;
use analyzer::AnalyzeError;

fn pool(bands: [i64; 7]) -> ScorePool {
    ScorePool::from_bands(bands.to_vec()).unwrap()
}

fn bands_of(p: &ScorePool) -> Vec<i64> {
    let mut out = Vec::new();
    let mut i = 0;
    while i < p.len() {
        out.push(p.band(i));
        i += 1;
    }
    out
}

#[test]
fn from_bands_rejects_wrong_shape() {
    let r = ScorePool::from_bands(vec![1, 2, 3]);
    assert!(matches!(r, Err(AnalyzeError::ShapeMismatch)));
    assert!(ScorePool::from_bands(vec![0; 7]).is_ok());
}

#[test]
fn zero_is_all_zero() {
    let z = ScorePool::zero();
    assert_eq!(bands_of(&z), vec![0; 7]);
}

#[test]
fn add_sub_scale_max_are_elementwise() {
    let a = pool([1, 2, 3, 4, 5, 6, 7]);
    let b = pool([10, 0, 1, 0, 2, 0, 3]);
    assert_eq!(bands_of(&a.add(&b)), vec![11, 2, 4, 4, 7, 6, 10]);
    assert_eq!(bands_of(&a.sub(&b)), vec![-9, 2, 2, 4, 3, 6, 4]);
    assert_eq!(bands_of(&a.scale(3)), vec![3, 6, 9, 12, 15, 18, 21]);
    assert_eq!(bands_of(&a.max(&b)), vec![10, 2, 3, 4, 5, 6, 7]);
}

#[test]
fn max_floors_negative_bands_at_zero() {
    let a = pool([-4, 5, -1, 0, 2, -7, 3]);
    let z = ScorePool::zero();
    assert_eq!(bands_of(&a.max(&z)), vec![0, 5, 0, 0, 2, 0, 3]);
}

#[test]
fn split_recombines_exactly() {
    // the general and province parts add back to the original pool
    let a = pool([9, 8, 7, 6, 5, 4, 3]);
    let rejoined = a.non_pnp().add(&a.pnp());
    assert_eq!(bands_of(&rejoined), bands_of(&a));
    assert_eq!(bands_of(&a.pnp()), vec![9, 0, 0, 0, 0, 0, 0]);
    assert_eq!(bands_of(&a.non_pnp()), vec![0, 8, 7, 6, 5, 4, 3]);
}

#[test]
fn total_sums_all_bands() {
    let a = pool([1, 2, 3, 4, 5, 6, 7]);
    assert_eq!(a.total(), 28);
    assert_eq!(ScorePool::zero().total(), 0);
}

#[test]
fn invite_consumes_top_down_exactly() {
    let a = pool([10, 20, 30, 0, 0, 0, 0]);
    // a draw within the total consumes exactly its size
    let c = a.invite(25);
    assert_eq!(bands_of(&c), vec![10, 15, 0, 0, 0, 0, 0]);
    assert_eq!(c.total(), 25);
    // no band of the remainder goes negative
    let rest = a.sub(&c);
    for i in 0..7 {
        assert!(rest.band(i) >= 0);
    }
}

#[test]
fn invite_of_total_empties_every_band() {
    let a = pool([10, 20, 30, 5, 0, 1, 4]);
    let c = a.invite(a.total() as u64);
    assert_eq!(bands_of(&c), bands_of(&a));
    assert_eq!(a.sub(&c).total(), 0);
}

#[test]
fn invite_clamps_when_demand_exceeds_pool() {
    let a = pool([0, 3, 2, 0, 0, 0, 0]);
    let c = a.invite(100);
    assert_eq!(bands_of(&c), bands_of(&a));
    assert_eq!(c.total(), 5);
}

#[test]
fn score_of_invite_interpolates_within_a_band() {
    // two-band pool, top 5 and bottom 5; a draw of 7 lands 2 units into the
    // bottom band: the boundary less two fifths of the band's width
    let a = pool([0, 5, 5, 0, 0, 0, 0]);
    let s = a.score_of_invite(7);
    assert_eq!(s, 500_000 - 49 * 2 * 1000 / 5);
    assert_eq!(s, 480_400);
}

#[test]
fn score_of_invite_zero_draw_is_zero() {
    let a = pool([0, 0, 0, 100, 0, 0, 0]);
    assert_eq!(a.score_of_invite(0), 0);
}

#[test]
fn score_of_invite_band_edges() {
    let a = pool([0, 5, 5, 0, 0, 0, 0]);
    // the whole top band exactly: cutoff at its lower edge
    assert_eq!(a.score_of_invite(5), 501_000);
    // more than everything: cutoff at the bottom of the lowest touched band
    assert_eq!(a.score_of_invite(100), 451_000);
}
