use keyed_stats::stats::{Statistics, MAX_COUNT};

fn of(values: &[i16]) -> Statistics {
    let mut s = Statistics::new(values[0]);
    for v in &values[1..] {
        s.add_val(*v);
    }
    s
}

#[test]
fn one_value_is_minimum_mean_and_maximum() {
    for v in [i16::MIN, -9999, -1, 0, 1, 328, 9999, i16::MAX] {
        let s = Statistics::new(v);
        assert_eq!((s.min(), s.mean(), s.max()), (v, v, v));
        assert_eq!((s.sum(), s.count()), (v as i64, 1));
    }
}

#[test]
fn add_val_keeps_minimum_maximum_sum_and_count() {
    let s = of(&[100, 50, -20, 70]);
    assert_eq!((s.min(), s.max(), s.sum(), s.count()), (-20, 100, 200, 4));
    assert_eq!(s.mean(), 50);
}

#[test]
fn the_mean_is_rounded_to_the_nearest_tenth_and_halves_go_up() {
    assert_eq!(of(&[100, 50]).mean(), 75);
    assert_eq!(of(&[1, 2]).mean(), 2);
    assert_eq!(of(&[-1, -2]).mean(), -1);
    assert_eq!(of(&[-1, 0]).mean(), 0);
    assert_eq!(of(&[0, 0, 1]).mean(), 0);
    assert_eq!(of(&[0, 1, 1]).mean(), 1);
    assert_eq!(of(&[0, 0, -1]).mean(), 0);
    assert_eq!(of(&[0, -1, -1]).mean(), -1);
    assert_eq!(of(&[-3, -4]).mean(), -3);
    assert_eq!(of(&[3, 4]).mean(), 4);
    assert_eq!(of(&[15, 25, -10]).mean(), 10);
    assert_eq!(of(&[i16::MAX, i16::MAX]).mean(), i16::MAX);
    assert_eq!(of(&[i16::MIN, i16::MIN]).mean(), i16::MIN);
    assert_eq!(of(&[i16::MIN, i16::MAX]).mean(), 0);
    assert_eq!(of(&[i16::MIN, i16::MAX, i16::MAX]).mean(), 10922);
}

#[test]
fn merge_is_what_taking_all_values_gives() {
    let mut left = of(&[100, 50]);
    let right = of(&[-20, 70, 300]);
    left.merge(&right);
    let all = of(&[100, 50, -20, 70, 300]);
    assert_eq!(
        (left.min(), left.max(), left.sum(), left.count()),
        (all.min(), all.max(), all.sum(), all.count())
    );
    assert_eq!((left.min(), left.max(), left.sum(), left.count()), (-20, 300, 500, 5));
}

#[test]
fn merge_does_not_depend_on_order_or_grouping() {
    let a = of(&[5, -7]);
    let b = of(&[100]);
    let c = of(&[-300, 2, 2]);
    let key = |s: &Statistics| (s.min(), s.max(), s.sum(), s.count());
    let mut ab = a;
    ab.merge(&b);
    let mut ba = b;
    ba.merge(&a);
    assert_eq!(key(&ab), key(&ba));
    let mut ab_c = ab;
    ab_c.merge(&c);
    let mut bc = b;
    bc.merge(&c);
    let mut a_bc = a;
    a_bc.merge(&bc);
    assert_eq!(key(&ab_c), key(&a_bc));
    assert_eq!(key(&ab_c), (-300, 100, -198, 6));
}

#[test]
fn statistics_are_written_with_one_fractional_digit() {
    assert_eq!(of(&[100, 50]).to_text(), "5.0/7.5/10.0");
    assert_eq!(of(&[15, 25, -10]).to_text(), "-1.0/1.0/2.5");
    assert_eq!(of(&[-1, 1]).to_text(), "-0.1/0.0/0.1");
    assert_eq!(of(&[-1]).to_text(), "-0.1/-0.1/-0.1");
    assert_eq!(of(&[0]).to_text(), "0.0/0.0/0.0");
    assert_eq!(of(&[-9999, 9999]).to_text(), "-999.9/0.0/999.9");
    assert_eq!(of(&[i16::MIN, i16::MAX]).to_text(), "-3276.8/0.0/3276.7");
}

#[test]
fn writing_twice_gives_the_same_text() {
    let s = of(&[15, 25, -10]);
    assert_eq!(s.to_text(), s.to_text());
    let mut first: Vec<u8> = Vec::new();
    s.push_text(&mut first);
    let mut second: Vec<u8> = Vec::new();
    s.push_text(&mut second);
    assert_eq!(first, second);
    assert_eq!(first, b"-1.0/1.0/2.5".to_vec());
    let copy = s;
    assert_eq!(copy.to_text(), s.to_text());
}

#[test]
fn push_text_appends() {
    let mut out = b"key=".to_vec();
    of(&[7]).push_text(&mut out);
    assert_eq!(out, b"key=0.7/0.7/0.7".to_vec());
}

#[test]
fn the_count_limit_leaves_room_for_the_sum() {
    assert_eq!(MAX_COUNT, 1 << 48);
    assert!((i16::MIN as i128) * (MAX_COUNT as i128) >= i64::MIN as i128);
    assert!((i16::MAX as i128) * (MAX_COUNT as i128) <= i64::MAX as i128);
}
