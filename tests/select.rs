use fractal_flame::select::{is_partition, select_entry, MAX_NON_NEGATIVE_BITS, ONE_BITS};

fn bits(v: &[f32]) -> Vec<u32> {
    v.iter().map(|t| t.to_bits()).collect()
}

#[test]
fn one_bits_is_the_pattern_of_one() {
    assert_eq!(ONE_BITS, 1.0f32.to_bits());
    assert_eq!(MAX_NON_NEGATIVE_BITS, f32::NAN.to_bits() | 0x7fff_ffff);
}

#[test]
fn bit_order_is_value_order_for_non_negative_floats() {
    let values = [0.0f32, 1e-30, 0.1, 0.25, 0.5, 0.999_999_9, 1.0, 2.0, f32::INFINITY];
    for w in values.windows(2) {
        assert!(w[0] < w[1]);
        assert!(w[0].to_bits() < w[1].to_bits());
    }
}

#[test]
fn partition_accepts_non_decreasing_thresholds_ending_at_one() {
    assert!(is_partition(&bits(&[0.2, 0.5, 0.5, 1.0])));
    assert!(is_partition(&bits(&[1.0])));
    assert!(is_partition(&bits(&[0.0, 1.0])));
}

#[test]
fn partition_rejects_bad_thresholds() {
    assert!(!is_partition(&vec![]));
    assert!(!is_partition(&bits(&[0.5, 0.2, 1.0])));
    assert!(!is_partition(&bits(&[0.2, 0.5])));
    assert!(!is_partition(&bits(&[0.2, 1.0, 1.0000001])));
    assert!(!is_partition(&bits(&[-0.0, 1.0])));
    assert!(!is_partition(&bits(&[-0.5, 1.0])));
    assert!(!is_partition(&bits(&[0.5, f32::NAN])));
}

#[test]
fn select_takes_the_first_threshold_above_the_draw() {
    let t = bits(&[0.2, 0.5, 0.75, 1.0]);
    assert_eq!(select_entry(&t, 0.0f32.to_bits()), Some(0));
    assert_eq!(select_entry(&t, 0.1f32.to_bits()), Some(0));
    assert_eq!(select_entry(&t, 0.3f32.to_bits()), Some(1));
    assert_eq!(select_entry(&t, 0.74f32.to_bits()), Some(2));
    assert_eq!(select_entry(&t, 0.999f32.to_bits()), Some(3));
}

#[test]
fn select_treats_intervals_as_half_open() {
    let t = bits(&[0.2, 0.5, 1.0]);
    assert_eq!(select_entry(&t, 0.2f32.to_bits()), Some(1));
    assert_eq!(select_entry(&t, 0.5f32.to_bits()), Some(2));
}

#[test]
fn select_skips_empty_intervals() {
    let t = bits(&[0.3, 0.3, 0.3, 1.0]);
    assert_eq!(select_entry(&t, 0.3f32.to_bits()), Some(3));
    assert_eq!(select_entry(&t, 0.29f32.to_bits()), Some(0));
}

#[test]
fn select_finds_nothing_at_or_above_the_last_threshold() {
    let t = bits(&[0.2, 1.0]);
    assert_eq!(select_entry(&t, 1.0f32.to_bits()), None);
    assert_eq!(select_entry(&vec![], 0.5f32.to_bits()), None);
}

#[test]
fn every_unit_draw_selects_under_a_partition() {
    let t = bits(&[0.1, 0.4, 0.4, 0.9, 1.0]);
    assert!(is_partition(&t));
    let mut d = 0.0f32;
    while d < 1.0 {
        let i = select_entry(&t, d.to_bits()).unwrap();
        let lo = if i == 0 { 0.0 } else { f32::from_bits(t[i - 1]) };
        assert!(lo <= d && d < f32::from_bits(t[i]));
        d += 0.01;
    }
}
