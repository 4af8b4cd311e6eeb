//! Averages and percentages in hundredths, against 64-bit floating point.

use trace_profile::double::{average, percent};
use trace_profile::text::{
    address_text, decimal_column, decimal_text, hundredths_column, hundredths_text, word_text,
};

struct Numbers(u64);

impl Numbers {
    fn next(&mut self) -> u64 {
        self.0 ^= self.0 << 13;
        self.0 ^= self.0 >> 7;
        self.0 ^= self.0 << 17;
        self.0
    }

    fn sized(&mut self) -> u64 {
        let shift = self.next() % 64;
        self.next() >> shift
    }
}

fn check_average(total: u64, count: u64) {
    let expected = if count == 0 { 0.0 } else { total as f64 / count as f64 };
    assert_eq!(
        hundredths_text(average(total, count)),
        format!("{expected:.2}"),
        "average of {total} over {count}"
    );
}

fn check_percent(part: u64, total: u64) {
    let expected = if total == 0 { 0.0 } else { part as f64 * 100.0 / total as f64 };
    assert_eq!(
        hundredths_text(percent(part, total)),
        format!("{expected:.2}"),
        "{part} of {total} in percent"
    );
}

const EDGES: [u64; 22] = [
    0,
    1,
    2,
    3,
    7,
    8,
    99,
    100,
    101,
    200,
    400,
    800,
    12_345,
    (1 << 53) - 1,
    1 << 53,
    (1 << 53) + 1,
    (1 << 54) + 2,
    (1 << 63) - 1,
    1 << 63,
    (1 << 63) + 1024,
    u64::MAX - 1,
    u64::MAX,
];

#[test]
fn averages_of_known_values() {
    assert_eq!(average(5, 3), 167);
    assert_eq!(average(0, 3), 0);
    assert_eq!(average(3, 0), 0);
    // 0.125 and 0.375 are doubles, so both are ties, rounded to even.
    assert_eq!(average(1, 8), 12);
    assert_eq!(average(3, 8), 38);
    // 1.005 is not a double; the nearest one is below.
    assert_eq!(average(201, 200), 100);
    assert_eq!(average(u64::MAX, 1), 1_844_674_407_370_955_161_600);
}

#[test]
fn percents_of_known_values() {
    assert_eq!(percent(2, 3), 6667);
    assert_eq!(percent(1, 3), 3333);
    assert_eq!(percent(4, 4), 10_000);
    assert_eq!(percent(0, 4), 0);
    assert_eq!(percent(4, 0), 0);
    // 0.125 and 0.375 percent are ties, rounded to even.
    assert_eq!(percent(1, 800), 12);
    assert_eq!(percent(3, 800), 38);
    assert_eq!(percent(u64::MAX, u64::MAX), 10_000);
}

#[test]
fn edges_round_as_floating_point_does() {
    for &a in &EDGES {
        for &b in &EDGES {
            check_average(a, b);
            check_percent(a, b);
        }
    }
}

#[test]
fn small_values_round_as_floating_point_does() {
    for a in 0..160 {
        for b in 0..160 {
            check_average(a, b);
            check_percent(a, b);
        }
    }
    for a in 0..4_000 {
        check_average(a, 800);
        check_percent(a, 80_000);
        check_average(a, 1 << 40);
    }
}

#[test]
fn random_values_round_as_floating_point_does() {
    let mut numbers = Numbers(0x9E37_79B9_7F4A_7C15);
    for _ in 0..100_000 {
        let a = numbers.sized();
        let b = numbers.sized();
        check_average(a, b);
        check_percent(a, b);
        check_percent(a.min(b), a.max(b));
    }
}

#[test]
fn numbers_read_as_the_standard_formatter_writes_them() {
    let mut numbers = Numbers(99);
    for _ in 0..20_000 {
        let n = numbers.sized();
        assert_eq!(decimal_text(n), format!("{n}"));
        assert_eq!(decimal_column(n, 10), format!("{n:>10}"));
        let pc = n as u32;
        assert_eq!(address_text(pc), format!("{pc:08X}"));
        let word = n as u16;
        assert_eq!(word_text(word), format!("{word:04X}"));
    }
    for n in [0, 9, 10, 99, 100, u64::MAX] {
        assert_eq!(decimal_text(n), format!("{n}"));
        for width in 0..24 {
            assert_eq!(decimal_column(n, width), format!("{n:>width$}"));
        }
    }
}

#[test]
fn hundredths_have_two_places() {
    assert_eq!(hundredths_text(0), "0.00");
    assert_eq!(hundredths_text(5), "0.05");
    assert_eq!(hundredths_text(167), "1.67");
    assert_eq!(hundredths_text(10_000), "100.00");
    assert_eq!(hundredths_column(167, 7), "   1.67");
    assert_eq!(hundredths_column(123_456_789, 7), "1234567.89");
}

#[test]
fn written_ratios_are_close_to_the_exact_ones() {
    let mut numbers = Numbers(3);
    for _ in 0..20_000 {
        let total = numbers.sized() >> 24;
        let count = (numbers.sized() >> 24).max(1);
        let written = average(total, count) * u128::from(count);
        let exact = 100 * u128::from(total);
        let error = written.abs_diff(exact);
        assert!(2 * error <= u128::from(count) + exact / 1_000_000_000_000 + 2);
    }
}

#[test]
fn shares_are_at_most_one_hundred_percent() {
    let mut numbers = Numbers(17);
    for _ in 0..20_000 {
        let a = numbers.sized();
        let b = numbers.sized();
        assert!(percent(a.min(b), a.max(b)) <= 10_000);
        assert_eq!(percent(a, a), if a == 0 { 0 } else { 10_000 });
    }
}
