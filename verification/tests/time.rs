use rpc_monitor::clock::reading_of;
use rpc_monitor::time::Timestamp;

#[test]
fn whole_seconds_match_hardware_rounding() {
    for n in [0i64, 1, -1, 1_700_000_000, i64::MAX, i64::MIN, 9007199254740993, -9007199254740995, 1 << 53] {
        assert_eq!(Timestamp::from_seconds(n).bits(), (n as f64).to_bits());
    }
}

#[test]
fn nanoseconds_match_hardware_rounding() {
    let mut n: i64 = 1;
    for step in 0..4000u64 {
        for sign in [1i64, -1] {
            let nanos = n.wrapping_mul(sign);
            assert_eq!(Timestamp::from_nanos(nanos).bits(), (nanos as f64 / 1e9).to_bits(), "{nanos}");
        }
        n = n.wrapping_mul(6364136223846793005).wrapping_add(1442695040888963407) >> (step % 60);
    }
    for nanos in [0i64, 1, 500_000_000, 1_700_000_000_123_456_789, i64::MAX, i64::MIN] {
        assert_eq!(Timestamp::from_nanos(nanos).bits(), (nanos as f64 / 1e9).to_bits());
    }
}

#[test]
fn half_a_second_is_one_half() {
    assert_eq!(Timestamp::from_nanos(500_000_000).bits(), 0.5f64.to_bits());
    assert_eq!(Timestamp::from_nanos(-1_000_000_000).bits(), (-1.0f64).to_bits());
}

#[test]
fn not_a_number_is_no_timestamp() {
    assert!(Timestamp::from_bits(f64::NAN.to_bits()).is_none());
    assert!(Timestamp::from_bits((-f64::NAN).to_bits()).is_none());
    assert_eq!(Timestamp::from_bits(f64::INFINITY.to_bits()).unwrap().bits(), f64::INFINITY.to_bits());
}

#[test]
fn timestamps_compare_as_numbers() {
    let values = [f64::NEG_INFINITY, -2.5, -1.0, -1e-300, -0.0, 0.0, 1e-300, 0.1, 1.0, 1.7e9, f64::INFINITY];
    for a in values {
        for b in values {
            let x = Timestamp::from_bits(a.to_bits()).unwrap();
            let y = Timestamp::from_bits(b.to_bits()).unwrap();
            assert_eq!(x.precedes(&y), a < b, "{a} {b}");
        }
    }
}

#[test]
fn marks_are_zero_and_minus_one() {
    assert_eq!(Timestamp::zero().bits(), 0.0f64.to_bits());
    assert_eq!(Timestamp::minus_one().bits(), (-1.0f64).to_bits());
}

#[test]
fn a_clock_tells_the_time_that_it_counts() {
    assert!(reading_of(None).is_none());
    assert_eq!(reading_of(Some(1_500_000_000)).unwrap().bits(), 1.5f64.to_bits());
}
