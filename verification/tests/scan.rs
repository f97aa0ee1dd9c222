use keyed_stats::error::AggregateError;
use keyed_stats::scan::{RecordScanner, RecordSpans, Span};

fn spans_of(input: &[u8]) -> Result<Vec<RecordSpans>, AggregateError> {
    let mut scanner = RecordScanner::new(input);
    let mut found = Vec::new();
    loop {
        match scanner.next_record() {
            Ok(Some(spans)) => found.push(spans),
            Ok(None) => return Ok(found),
            Err(e) => return Err(e),
        }
    }
}

fn plain_spans_of(input: &[u8]) -> Vec<RecordSpans> {
    let mut found = Vec::new();
    let mut pos = 0;
    while pos < input.len() {
        let key_end = pos + input[pos..].iter().position(|&b| b == b';').unwrap();
        let value_end = key_end + input[key_end..].iter().position(|&b| b == b'\n').unwrap();
        found.push(RecordSpans {
            key: Span { start: pos, end: key_end },
            value: Span { start: key_end + 1, end: value_end },
        });
        pos = value_end + 1;
    }
    found
}

#[test]
fn one_record_gives_its_two_spans() {
    assert_eq!(
        spans_of(b"abc;12.3\n"),
        Ok(vec![RecordSpans {
            key: Span { start: 0, end: 3 },
            value: Span { start: 4, end: 8 },
        }])
    );
}

#[test]
fn no_bytes_give_no_record() {
    assert_eq!(spans_of(b""), Ok(vec![]));
}

#[test]
fn the_scanner_hands_out_each_record_once() {
    let input = b"a;1.0\nb;2.0\n";
    let mut scanner = RecordScanner::new(input);
    assert!(matches!(scanner.next_record(), Ok(Some(_))));
    assert!(matches!(scanner.next_record(), Ok(Some(_))));
    assert_eq!(scanner.next_record(), Ok(None));
    assert_eq!(scanner.next_record(), Ok(None));
}

#[test]
fn records_of_every_length_are_found_across_windows() {
    for shift in 0..70 {
        let mut input: Vec<u8> = Vec::new();
        for n in 0..shift {
            input.extend_from_slice(format!("{};{}.0\n", "s".repeat(1 + n % 3), n % 10).as_bytes());
        }
        for key_len in 1..80 {
            input.extend_from_slice("k".repeat(key_len).as_bytes());
            input.push(b';');
            input.extend_from_slice(format!("-{}.{}", key_len, key_len % 10).as_bytes());
            input.push(b'\n');
        }
        assert_eq!(spans_of(&input), Ok(plain_spans_of(&input)), "shift {}", shift);
    }
}

#[test]
fn a_field_separator_in_a_value_belongs_to_the_value() {
    assert_eq!(
        spans_of(b"a;b;c\nd;e\n"),
        Ok(vec![
            RecordSpans { key: Span { start: 0, end: 1 }, value: Span { start: 2, end: 5 } },
            RecordSpans { key: Span { start: 6, end: 7 }, value: Span { start: 8, end: 9 } },
        ])
    );
    let mut long: Vec<u8> = Vec::new();
    long.extend_from_slice(b"key;");
    long.extend_from_slice(&[b';'; 100]);
    long.extend_from_slice(b"\nnext;1.0\n");
    assert_eq!(
        spans_of(&long),
        Ok(vec![
            RecordSpans { key: Span { start: 0, end: 3 }, value: Span { start: 4, end: 104 } },
            RecordSpans {
                key: Span { start: 105, end: 109 },
                value: Span { start: 110, end: 113 },
            },
        ])
    );
}

#[test]
fn faults_are_found_at_every_distance_from_the_start() {
    for lead in 0..100 {
        let mut good: Vec<u8> = Vec::new();
        for n in 0..lead {
            good.extend_from_slice(format!("k{};{}.5\n", n, n % 100).as_bytes());
        }
        let at = good.len();

        let mut cut = good.clone();
        cut.extend_from_slice(b"key;1.0");
        assert_eq!(spans_of(&cut), Err(AggregateError::TruncatedInput { offset: at }));

        let mut cut_in_key = good.clone();
        cut_in_key.extend_from_slice(b"key");
        assert_eq!(spans_of(&cut_in_key), Err(AggregateError::TruncatedInput { offset: at }));

        let mut no_field = good.clone();
        no_field.extend_from_slice(b"key\nother;1.0\n");
        assert_eq!(spans_of(&no_field), Err(AggregateError::Parse { offset: at + 3 }));

        let mut no_key = good.clone();
        no_key.extend_from_slice(b";1.0\n");
        assert_eq!(spans_of(&no_key), Err(AggregateError::EmptyKey { offset: at }));
    }
}
