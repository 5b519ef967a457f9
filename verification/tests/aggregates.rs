use keyed_stats::stats::Measurement;

fn from_tenths(values: &[i64]) -> Measurement {
    let mut m = Measurement::from(values[0]);
    let mut i = 1;
    while i < values.len() {
        m.record(values[i]);
        i += 1;
    }
    m
}

#[test]
fn accumulator_of_three_values() {
    // observed values 3.1, -2.0, 7.7
    let m = from_tenths(&[31, -20, 77]);
    assert_eq!(m.min, -20);
    assert_eq!(m.max, 77);
    assert_eq!(m.sum, 88); // 8.8 in tenths
    assert_eq!(m.count, 3);
    // mean 88/3 = 29.33.. tenths, nearest whole tenth: 2.9
    assert_eq!(m.mean_tenths(), 29);
}

#[test]
fn first_value_seeds_all_fields() {
    let m = Measurement::from(-32);
    assert_eq!(m.min, -32);
    assert_eq!(m.max, -32);
    assert_eq!(m.sum, -32);
    assert_eq!(m.count, 1);
    assert_eq!(m.mean_tenths(), -32);
}

#[test]
fn merge_is_commutative() {
    let a = from_tenths(&[31, -20]);
    let b = from_tenths(&[77, 5, -1]);
    let mut ab = a;
    ab.aggregate(&b);
    let mut ba = b;
    ba.aggregate(&a);
    assert_eq!(ab.min, ba.min);
    assert_eq!(ab.max, ba.max);
    assert_eq!(ab.sum, ba.sum);
    assert_eq!(ab.count, ba.count);
}

#[test]
fn merge_is_associative() {
    let a = from_tenths(&[10]);
    let b = from_tenths(&[-5, 20]);
    let c = from_tenths(&[3, 3, 3]);
    let mut left = a;
    left.aggregate(&b);
    left.aggregate(&c);
    let mut bc = b;
    bc.aggregate(&c);
    let mut right = a;
    right.aggregate(&bc);
    assert_eq!(left, right);
}

#[test]
fn merge_equals_recording_all_values() {
    let whole = from_tenths(&[31, -20, 77, 5]);
    let a = from_tenths(&[31, -20]);
    let mut b = from_tenths(&[77, 5]);
    let mut merged = a;
    merged.aggregate(&b);
    assert_eq!(merged, whole);
    b.aggregate(&a);
    assert_eq!(b, whole);
}

#[test]
fn mean_rounds_half_away_from_negative_infinity() {
    // mean of -3.4 and -3.5 is -3.45: the tie rounds up, to -3.4
    let m = from_tenths(&[-34, -35]);
    assert_eq!(m.mean_tenths(), -34);
    // mean of 3.4 and 3.5 is 3.45: the tie rounds up, to 3.5
    let m = from_tenths(&[34, 35]);
    assert_eq!(m.mean_tenths(), 35);
    // an exact mean is returned unchanged
    let m = from_tenths(&[120, -32]);
    assert_eq!(m.mean_tenths(), 44);
    // small negative means do not jump past zero
    let m = from_tenths(&[-1, 0, 0, 0, 0, 0, 0, 0, 0, 0]);
    assert_eq!(m.mean_tenths(), 0);
}

#[test]
fn mean_stays_between_extremes() {
    let m = from_tenths(&[-9999, 9999, 1]);
    let mean = m.mean_tenths();
    assert!(m.min <= mean && mean <= m.max);
}
