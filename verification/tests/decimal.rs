use keyed_stats::decimal::{atoi_times_ten, push_tenths};

fn text(t: i16) -> Vec<u8> {
    let mut out = Vec::new();
    push_tenths(&mut out, t);
    out
}

#[test]
fn fixed_point_values_are_read_as_tenths() {
    assert_eq!(atoi_times_ten(b"0.0"), Some(0));
    assert_eq!(atoi_times_ten(b"0.1"), Some(1));
    assert_eq!(atoi_times_ten(b"1.0"), Some(10));
    assert_eq!(atoi_times_ten(b"9.9"), Some(99));
    assert_eq!(atoi_times_ten(b"12.3"), Some(123));
    assert_eq!(atoi_times_ten(b"99.9"), Some(999));
    assert_eq!(atoi_times_ten(b"100.0"), Some(1000));
    assert_eq!(atoi_times_ten(b"999.9"), Some(9999));
    assert_eq!(atoi_times_ten(b"007.5"), Some(75));
    assert_eq!(atoi_times_ten(b"00.0"), Some(0));
}

#[test]
fn negative_values_are_read_as_negative_tenths() {
    assert_eq!(atoi_times_ten(b"-0.1"), Some(-1));
    assert_eq!(atoi_times_ten(b"-0.0"), Some(0));
    assert_eq!(atoi_times_ten(b"-1.5"), Some(-15));
    assert_eq!(atoi_times_ten(b"-12.3"), Some(-123));
    assert_eq!(atoi_times_ten(b"-999.9"), Some(-9999));
    assert_eq!(atoi_times_ten(b"-000.9"), Some(-9));
}

#[test]
fn what_is_not_a_fixed_point_value_is_refused() {
    let bad: [&[u8]; 24] = [
        b"", b".", b"-", b"1", b"1.", b".5", b"-.5", b"1.55", b"1234.5", b"-1234.5", b"+1.5",
        b"1,5", b"1.5 ", b" 1.5", b"1.-5", b"--1.5", b"1-.5", b"a.5", b"1.a", b"1..5", b"12",
        b"-1", b"1.5\n", b"1;5",
    ];
    for text in bad {
        assert_eq!(atoi_times_ten(text), None, "{:?}", String::from_utf8_lossy(text));
    }
}

#[test]
fn tenths_are_written_with_one_fractional_digit() {
    assert_eq!(text(0), b"0.0".to_vec());
    assert_eq!(text(1), b"0.1".to_vec());
    assert_eq!(text(-1), b"-0.1".to_vec());
    assert_eq!(text(10), b"1.0".to_vec());
    assert_eq!(text(-10), b"-1.0".to_vec());
    assert_eq!(text(328), b"32.8".to_vec());
    assert_eq!(text(9999), b"999.9".to_vec());
    assert_eq!(text(-9999), b"-999.9".to_vec());
    assert_eq!(text(i16::MAX), b"3276.7".to_vec());
    assert_eq!(text(i16::MIN), b"-3276.8".to_vec());
}

#[test]
fn push_tenths_appends() {
    let mut out = b"x=".to_vec();
    push_tenths(&mut out, -75);
    push_tenths(&mut out, 5);
    assert_eq!(out, b"x=-7.50.5".to_vec());
}

#[test]
fn every_number_of_tenths_reads_back_from_its_text() {
    for t in -9999..=9999i16 {
        assert_eq!(atoi_times_ten(&text(t)), Some(t), "{}", t);
    }
}

#[test]
fn every_plain_text_comes_back_from_its_value() {
    for sign in ["", "-"] {
        for whole in 0..1000 {
            for last in 0..10 {
                let written = format!("{}{}.{}", sign, whole, last);
                let value = atoi_times_ten(written.as_bytes()).unwrap();
                let magnitude = whole * 10 + last;
                assert_eq!(value as i32, if sign == "-" { -magnitude } else { magnitude });
                if !(sign == "-" && value == 0) {
                    assert_eq!(text(value), written.as_bytes().to_vec());
                }
            }
        }
    }
}

#[test]
fn zeros_in_front_do_not_change_the_value() {
    let pairs = [("01.5", "1.5"), ("001.5", "1.5"), ("-01.5", "-1.5"), ("000.0", "0.0")];
    for (padded, plain) in pairs {
        let value = atoi_times_ten(padded.as_bytes()).unwrap();
        assert_eq!(Some(value), atoi_times_ten(plain.as_bytes()));
        assert_eq!(text(value), plain.as_bytes().to_vec());
    }
}

/// The integer that `text` starts with: an optional sign, then the digits
/// that follow it; a lone sign reads as 0.
fn leading_integer(text: &[u8]) -> Option<i64> {
    let signed = !text.is_empty() && (text[0] == b'-' || text[0] == b'+');
    let start = if signed { 1 } else { 0 };
    let mut end = start;
    let mut magnitude: i64 = 0;
    while end < text.len() && text[end].is_ascii_digit() {
        magnitude = (magnitude * 10 + (text[end] - b'0') as i64).min(1_000_000);
        end += 1;
    }
    if end == 0 {
        None
    } else if text[0] == b'-' {
        Some(-magnitude)
    } else {
        Some(magnitude)
    }
}

#[test]
fn atoi_reads_the_leading_integer_where_it_fits_in_sixteen_bits() {
    let letters = [b'-', b'+', b'0', b'3', b'9', b'.', b'x'];
    let mut texts: Vec<Vec<u8>> = vec![Vec::new()];
    let mut from = 0;
    for _ in 0..7 {
        let upto = texts.len();
        for n in from..upto {
            for letter in letters {
                let mut longer = texts[n].clone();
                longer.push(letter);
                texts.push(longer);
            }
        }
        from = upto;
    }
    for whole in [b"32767".as_slice(), b"32768", b"-32768", b"-32769", b"+32767", b"0032767"] {
        texts.push(whole.to_vec());
    }
    for text in texts {
        let expected = match leading_integer(&text) {
            Some(v) if i16::MIN as i64 <= v && v <= i16::MAX as i64 => Some(v as i16),
            _ => None,
        };
        assert_eq!(atoi::atoi::<i16>(&text), expected, "{:?}", String::from_utf8_lossy(&text));
    }
}
