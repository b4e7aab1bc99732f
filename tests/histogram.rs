use d2tree_histogram::bin::{BinAddress, BinData};
use d2tree_histogram::candidates::{BinDistance, CandidateIndex};
use d2tree_histogram::histogram::Histogram;
use d2tree_histogram::quantile::partial_sum;
use d2tree_histogram::serial::SerializableHistogram;
use std::cmp::Ordering;

/// Values are held in tenths.
fn fx(x: f64) -> i64 {
    (x * 10.0).round() as i64
}

fn bin(left: f64, right: f64, count: u64, sum: f64) -> (BinAddress, BinData) {
    (BinAddress::new(fx(left), fx(right)), BinData::new(count, fx(sum) as i128))
}

fn build(n_bins: usize, items: &[f64]) -> Histogram {
    let mut h = Histogram::new(n_bins);
    for &i in items {
        h.insert(fx(i), 1);
    }
    h
}

fn assert_ordered(h: &Histogram) {
    let bins = h.bins();
    assert!(bins.len() <= h.n_bins());
    for (a, d) in bins.iter() {
        assert!(a.left <= a.right);
        assert!(d.count >= 1);
    }
    for w in bins.windows(2) {
        assert!(w[0].0.right < w[1].0.left);
    }
}

#[test]
fn insert() {
    let h = build(3, &[1., 1., 2., 3.5, 2.1, 3.6]);
    assert_eq!(
        h.bins().clone(),
        vec![bin(1.0, 1.0, 2, 2.0), bin(2.0, 2.1, 2, 4.1), bin(3.5, 3.6, 2, 7.1)]
    );
}

#[test]
fn merge() {
    let mut h1 = build(3, &[1., 1.5, 3., 4., 4.5, 6.]);
    let h2 = build(3, &[1.0, 7.0, 5.0]);
    h1.merge_borrowed(&h2);
    assert_eq!(
        h1.bins().clone(),
        vec![bin(1.0, 3.0, 4, 6.5), bin(4.0, 5.0, 3, 13.5), bin(6.0, 7.0, 2, 13.0)]
    );
}

#[test]
fn merge_owned_matches_borrowed() {
    let mut h1 = build(3, &[1., 1.5, 3., 4., 4.5, 6.]);
    let h2 = build(3, &[1.0, 7.0, 5.0]);
    h1.merge(h2);
    assert_eq!(
        h1.bins().clone(),
        vec![bin(1.0, 3.0, 4, 6.5), bin(4.0, 5.0, 3, 13.5), bin(6.0, 7.0, 2, 13.0)]
    );
    assert_eq!(h1.count(), 9);
}

#[test]
fn budget_holds_after_every_operation() {
    let mut h = Histogram::new(4);
    let mut other = Histogram::new(4);
    for k in 0..200i64 {
        h.insert((k * 37) % 101 - 50, 1 + (k as u64 % 3));
        assert_ordered(&h);
        other.insert((k * 13) % 71, 1);
        assert_ordered(&other);
    }
    let total = h.count() + other.count();
    h.merge_borrowed(&other);
    assert_ordered(&h);
    assert_eq!(h.count(), total);
}

#[test]
fn merge_adds_counts() {
    let mut a = build(5, &[1., 2., 3., 10., 11., 12., 30.]);
    let b = build(5, &[2.5, 3., 40., 41., -7.]);
    let (ca, cb) = (a.count(), b.count());
    assert_eq!((ca, cb), (7, 5));
    a.merge_borrowed(&b);
    assert_eq!(a.count(), ca + cb);
    assert_ordered(&a);
}

#[test]
fn merge_coalesces_overlapping_bins_under_budget() {
    let mut a = Histogram::new(10);
    a.insert(10, 1);
    a.insert(30, 1);
    let mut wide = build(1, &[0.5, 2.5]);
    assert_eq!(wide.bins().clone(), vec![bin(0.5, 2.5, 2, 3.0)]);
    let mut big = Histogram::new(10);
    big.merge_borrowed(&wide);
    big.merge_borrowed(&a);
    assert_eq!(
        big.bins().clone(),
        vec![
            (BinAddress::new(5, 25), BinData::new(3, 40)),
            (BinAddress::new(30, 30), BinData::new(1, 30)),
        ]
    );
    wide.merge(Histogram::new(1));
    assert_eq!(wide.count(), 2);
}

#[test]
fn weighted_insert_counts_weight() {
    let mut h = Histogram::new(2);
    h.insert(5, 4);
    h.insert(5, 3);
    h.insert(9, 2);
    assert_eq!(h.count(), 9);
    assert_eq!(
        h.bins().clone(),
        vec![
            (BinAddress::new(5, 5), BinData::new(7, 10)),
            (BinAddress::new(9, 9), BinData::new(2, 9)),
        ]
    );
}

#[test]
fn insert_into_covering_bin() {
    let mut h = build(2, &[1., 3., 5.]);
    assert_eq!(h.bins().clone(), vec![bin(1.0, 3.0, 2, 4.0), bin(5.0, 5.0, 1, 5.0)]);
    h.insert(fx(2.0), 1);
    assert_eq!(h.bins().clone(), vec![bin(1.0, 3.0, 3, 6.0), bin(5.0, 5.0, 1, 5.0)]);
}

#[test]
fn round_trip_keeps_bins_and_budget() {
    let h = build(3, &[1., 1., 2., 3.5, 2.1, 3.6]);
    let before = h.bins().clone();
    let form = SerializableHistogram::from(h);
    assert_eq!(form.n_bins, 3);
    assert_eq!(form.bins[1], (fx(2.0), fx(2.1), BinData::new(2, 41)));
    assert!(form.is_valid());
    let back: Histogram = form.into();
    assert_eq!(back.bins().clone(), before);
    assert_eq!(back.n_bins(), 3);
}

#[test]
fn round_trip_then_insert() {
    let h = build(3, &[1., 1., 2., 3.5, 2.1, 3.6]);
    let mut back: Histogram = SerializableHistogram::from(h).into();
    back.insert(fx(3.6), 1);
    assert_eq!(
        back.bins().clone(),
        vec![bin(1.0, 1.0, 2, 2.0), bin(2.0, 2.1, 2, 4.1), bin(3.5, 3.6, 3, 10.7)]
    );
}

#[test]
fn invalid_forms_are_rejected() {
    let ok = |bins: Vec<(i64, i64, BinData)>, n_bins: usize| SerializableHistogram { n_bins, bins }.is_valid();
    assert!(ok(vec![], 1));
    assert!(!ok(vec![], 0));
    assert!(!ok(vec![(1, 1, BinData::new(1, 1)), (3, 3, BinData::new(1, 3))], 1));
    assert!(!ok(vec![(2, 1, BinData::new(1, 1))], 2));
    assert!(!ok(vec![(1, 1, BinData::new(0, 0))], 2));
    assert!(!ok(vec![(1, 2, BinData::new(1, 1)), (2, 3, BinData::new(1, 2))], 2));
    assert!(!ok(vec![(1, 1, BinData::new(u64::MAX, 1)), (3, 3, BinData::new(1, 3))], 2));
    assert!(!ok(vec![(1, 1, BinData::new(1, i128::MAX))], 2));
    assert!(ok(vec![(1, 2, BinData::new(1, 1)), (3, 3, BinData::new(1, 3))], 2));
}

#[test]
fn median_of_empty_histogram_is_none() {
    let h = Histogram::new(3);
    assert_eq!(h.median(), None);
    assert_eq!(h.count(), 0);
}

#[test]
fn median_interpolates_inside_bin() {
    let h = build(3, &[1., 1., 2., 3.5, 2.1, 3.6]);
    // total 6, rank 3: past the first bin (2), one into [2.0, 2.1] of weight 2.
    assert_eq!(h.median(), Some(20 + (21 - 20) * 1 / 2));
    let single = build(3, &[4.0]);
    assert_eq!(single.median(), Some(40));
    let mut wide = Histogram::new(1);
    wide.insert(0, 1);
    wide.insert(100, 3);
    assert_eq!(wide.bins().clone(), vec![(BinAddress::new(0, 100), BinData::new(4, 100))]);
    assert_eq!(wide.median(), Some(50));
}

#[test]
fn median_lies_within_inserted_range() {
    let mut h = Histogram::new(3);
    let values = [17i64, -4, 250, 99, 3, 3, 61, -80, 12, 140];
    for &v in values.iter() {
        h.insert(v, 2);
        let m = h.median().unwrap();
        assert!(m >= -80 && m <= 250);
    }
    let m = h.median().unwrap();
    assert!(m >= h.bins()[0].0.left && m <= h.bins()[h.bins().len() - 1].0.right);
    assert_eq!(h.bins()[0].0.left, -80);
    assert_eq!(h.bins()[h.bins().len() - 1].0.right, 250);
}

#[test]
fn extreme_values_do_not_overflow() {
    let mut h = Histogram::new(2);
    h.insert(i64::MIN, u64::MAX / 4);
    h.insert(i64::MAX, u64::MAX / 4);
    h.insert(0, 1);
    assert_eq!(h.count(), u64::MAX / 2);
    let m = h.median().unwrap();
    assert!(m >= i64::MIN);
    assert_eq!(h.bins().len(), 2);
}

#[test]
fn empty_clone_keeps_budget() {
    let h = build(3, &[1., 2.]);
    let e = h.empty_clone();
    assert_eq!(e.n_bins(), 3);
    assert!(e.bins().is_empty());
}

#[test]
fn address_contains_and_merge() {
    let mut a = BinAddress::new(10, 20);
    assert_eq!(a.contains(9), Ordering::Less);
    assert_eq!(a.contains(10), Ordering::Equal);
    assert_eq!(a.contains(20), Ordering::Equal);
    assert_eq!(a.contains(21), Ordering::Greater);
    a.merge(&BinAddress::init(25));
    assert_eq!(a, BinAddress::new(10, 25));
    a.merge(&BinAddress::new(-3, 0));
    assert_eq!(a, BinAddress::new(-3, 25));
}

#[test]
fn data_init_and_merge() {
    let mut d = BinData::init(-7);
    assert_eq!(d, BinData::new(1, -7));
    d.merge(&BinData::new(3, 40));
    assert_eq!(d, BinData::new(4, 33));
}

#[test]
fn distance_is_clamped_gap() {
    let a = BinAddress::new(0, 10);
    let b = BinAddress::new(15, 20);
    assert_eq!(BinDistance::new(&a, &b).distance, 5);
    assert_eq!(BinDistance::new(&b, &a).distance, 0);
    assert_eq!(BinDistance::new(&BinAddress::new(i64::MIN, i64::MIN), &BinAddress::new(i64::MAX, i64::MAX)).distance, u64::MAX);
}

#[test]
fn index_pops_smallest_gap_first_recorded() {
    let mut idx = CandidateIndex::new();
    let p = |l: i64, r: i64| BinDistance::new(&BinAddress::init(l), &BinAddress::init(r));
    idx.push(p(0, 5));
    idx.push(p(10, 12));
    idx.push(p(20, 22));
    idx.push(p(30, 31));
    assert_eq!(idx.len(), 4);
    assert_eq!(idx.pop_closest(), Some(p(30, 31)));
    assert_eq!(idx.pop_closest(), Some(p(10, 12)));
    assert_eq!(idx.pop_closest(), Some(p(20, 22)));
    assert_eq!(idx.pop_closest(), Some(p(0, 5)));
    assert_eq!(idx.pop_closest(), None);
}

#[test]
fn index_rebuild_records_neighbours() {
    let h = build(3, &[1., 2., 4.]);
    let mut idx = CandidateIndex::new();
    idx.push(BinDistance::new(&BinAddress::init(0), &BinAddress::init(100)));
    idx.rebuild(h.bins());
    assert_eq!(idx.len(), 2);
    assert_eq!(idx.pop_closest(), Some(BinDistance::new(&BinAddress::init(10), &BinAddress::init(20))));
    assert_eq!(idx.pop_closest(), Some(BinDistance::new(&BinAddress::init(20), &BinAddress::init(40))));
}

#[test]
fn partial_sum_estimates() {
    let a = BinAddress::new(0, 100);
    let d = BinData::new(5, 200);
    assert_eq!(partial_sum(&a, &d, 0), 0);
    assert_eq!(partial_sum(&a, &d, 1), 0);
    assert_eq!(partial_sum(&a, &d, 2), 16);
    assert_eq!(partial_sum(&a, &d, 5), 200);
    let neg = BinAddress::new(-100, 0);
    assert_eq!(partial_sum(&neg, &BinData::new(5, -300), 3), -250);
    assert_eq!(partial_sum(&BinAddress::new(0, 10), &BinData::new(4, 5), 2), -1);
    assert_eq!(partial_sum(&BinAddress::new(7, 9), &BinData::new(2, 16), 1), 7);
}
