use rxpackage::flagts::{FlagAggregator, FlagTsError, TimeSlotRecord};
use rxpackage::timekey::{order, TimeKey};
use std::cmp::Ordering;

fn key(t: f64) -> TimeKey {
    TimeKey::encode(t.to_bits())
}

fn slot(agg: &FlagAggregator, t: f64) -> Option<TimeSlotRecord> {
    agg.report().slots.into_iter().find(|r| r.time == key(t))
}

#[test]
fn identical_timestamps_share_a_slot() {
    let mut agg = FlagAggregator::new();
    agg.add_row(key(5.0e9), &vec![true, false, false, true]).unwrap();
    agg.add_row(key(5.0e9), &vec![false, false, true, false]).unwrap();
    let report = agg.report();
    assert_eq!(report.slots.len(), 1);
    assert_eq!(report.slots[0].n_total, 8);
    assert_eq!(report.slots[0].n_flagged, 3);
}

#[test]
fn timestamps_one_ulp_apart_are_distinct() {
    let t1 = 4.0e9f64;
    let t2 = f64::from_bits(t1.to_bits() + 1);
    let mut agg = FlagAggregator::new();
    agg.add_row(key(t1), &vec![true]).unwrap();
    agg.add_row(key(t2), &vec![false]).unwrap();
    let report = agg.report();
    assert_eq!(report.slots.len(), 2);
    assert_eq!(slot(&agg, t1).unwrap().n_flagged, 1);
    assert_eq!(slot(&agg, t2).unwrap().n_flagged, 0);
}

#[test]
fn signed_zeros_are_distinct_slots() {
    let mut agg = FlagAggregator::new();
    agg.add_row(key(0.0), &vec![true]).unwrap();
    agg.add_row(key(-0.0), &vec![true, true]).unwrap();
    assert_eq!(agg.report().slots.len(), 2);
    assert_eq!(order(key(0.0), key(-0.0)), Ordering::Equal);
}

#[test]
fn counts_are_conserved() {
    let mut agg = FlagAggregator::new();
    let times = [3.0, 1.0, 2.0, 1.0, 3.0, 3.0, 2.0];
    for (i, t) in times.iter().enumerate() {
        let flags: Vec<bool> = (0..6).map(|k| (k + i) % 4 == 0).collect();
        agg.add_row(key(*t), &flags).unwrap();
    }
    let report = agg.report();
    let total: u64 = report.slots.iter().map(|s| s.n_total).sum();
    let flagged: u64 = report.slots.iter().map(|s| s.n_flagged).sum();
    assert_eq!(report.slots.len(), 3);
    assert_eq!(total, 7 * 6);
    assert!(flagged <= total);
    assert_eq!(flagged, 10);
}

#[test]
fn report_is_in_time_order() {
    let mut agg = FlagAggregator::new();
    for t in [7.5, -2.0, 100.0, 0.25, -30.0, 7.5] {
        agg.add_row(key(t), &vec![false, true]).unwrap();
    }
    let report = agg.report();
    let times: Vec<f64> = report.slots.iter().map(|s| f64::from_bits(s.time.decode())).collect();
    assert_eq!(times, vec![-30.0, -2.0, 0.25, 7.5, 100.0]);
    let start = f64::from_bits(report.start.unwrap().decode());
    assert_eq!(start, -30.0);
    assert_eq!(times[0] - start, 0.0);
    assert_eq!(report.slots[3].n_total, 4);
}

#[test]
fn empty_report_has_no_start() {
    let agg = FlagAggregator::new();
    let report = agg.report();
    assert!(report.slots.is_empty());
    assert!(report.start.is_none());
}

#[test]
fn empty_flag_rows_create_slots() {
    let mut agg = FlagAggregator::new();
    assert_eq!(agg.add_row(key(1.0), &vec![]), Ok(()));
    let report = agg.report();
    assert_eq!(report.slots.len(), 1);
    assert_eq!(report.slots[0].n_total, 0);
    assert_ne!(agg.add_row(key(1.0), &vec![true]), Err(FlagTsError::CountOverflow));
}

#[test]
fn order_follows_float_order() {
    assert_eq!(order(key(1.0), key(2.0)), Ordering::Less);
    assert_eq!(order(key(-1.0), key(-2.0)), Ordering::Greater);
    assert_eq!(order(key(-1.0), key(0.5)), Ordering::Less);
    assert_eq!(order(key(f64::INFINITY), key(1.0e300)), Ordering::Greater);
    assert_eq!(order(key(f64::NEG_INFINITY), key(-1.0e300)), Ordering::Less);
    assert_eq!(order(key(3.25), key(3.25)), Ordering::Equal);
}

#[test]
fn key_round_trip_and_nan() {
    let t = 4.84e9f64;
    assert_eq!(f64::from_bits(key(t).decode()), t);
    assert!(key(f64::NAN).is_nan());
    assert!(!key(f64::INFINITY).is_nan());
    assert!(!key(-0.0).is_nan());
}
