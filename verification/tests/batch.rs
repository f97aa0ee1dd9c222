use keyed_stats::batch::{aggregate_records, summarize};
use keyed_stats::error::AggregateError;

fn line(input: &[u8]) -> String {
    String::from_utf8(summarize(input).unwrap()).unwrap()
}

#[test]
fn two_keys_are_summarized_in_key_order() {
    assert_eq!(line(b"A;10.0\nB;20.0\nA;5.0\n"), "{A=5.0/7.5/10.0,B=20.0/20.0/20.0}");
}

#[test]
fn one_key_with_a_negative_value() {
    assert_eq!(line(b"X;1.5\nX;2.5\nX;-1.0\n"), "{X=-1.0/1.0/2.5}");
}

#[test]
fn missing_final_line_separator_is_truncated_input() {
    assert_eq!(
        summarize(b"A;10.0\nB;20.0"),
        Err(AggregateError::TruncatedInput { offset: 7 })
    );
}

#[test]
fn empty_input_gives_empty_braces() {
    assert_eq!(line(b""), "{}");
}

#[test]
fn values_near_zero_go_by_number() {
    assert_eq!(line(b"k;0.1\nk;-0.1\n"), "{k=-0.1/0.0/0.1}");
    assert_eq!(line(b"k;-0.1\nk;-0.2\n"), "{k=-0.2/-0.1/-0.1}");
    assert_eq!(line(b"a;-0.1\nb;0.1\n"), "{a=-0.1/-0.1/-0.1,b=0.1/0.1/0.1}");
}

#[test]
fn a_mean_halfway_between_two_tenths_goes_up() {
    assert_eq!(line(b"k;0.1\nk;0.2\n"), "{k=0.1/0.2/0.2}");
    assert_eq!(line(b"k;-0.1\nk;-0.2\n"), "{k=-0.2/-0.1/-0.1}");
    assert_eq!(line(b"k;0.0\nk;0.0\nk;0.1\n"), "{k=0.0/0.0/0.1}");
    assert_eq!(line(b"k;0.0\nk;0.1\nk;0.1\n"), "{k=0.0/0.1/0.1}");
}

#[test]
fn keys_come_out_in_byte_order() {
    assert_eq!(
        line(b"b;1.0\nab;2.0\na;3.0\nB;4.0\naa;5.0\n"),
        "{B=4.0/4.0/4.0,a=3.0/3.0/3.0,aa=5.0/5.0/5.0,ab=2.0/2.0/2.0,b=1.0/1.0/1.0}"
    );
}

#[test]
fn a_line_without_field_separator_does_not_parse() {
    assert_eq!(summarize(b"A;1.0\nB\nC;2.0\n"), Err(AggregateError::Parse { offset: 7 }));
    assert_eq!(summarize(b"\n"), Err(AggregateError::Parse { offset: 0 }));
}

#[test]
fn a_bad_value_does_not_parse() {
    assert_eq!(summarize(b"A;1.0\nB;x.0\n"), Err(AggregateError::Parse { offset: 8 }));
    assert_eq!(summarize(b"A;\n"), Err(AggregateError::Parse { offset: 2 }));
    assert_eq!(summarize(b"A;;1.0\n"), Err(AggregateError::Parse { offset: 2 }));
    assert_eq!(summarize(b"A;1234.5\n"), Err(AggregateError::Parse { offset: 2 }));
    assert_eq!(summarize(b"A;1.25\n"), Err(AggregateError::Parse { offset: 2 }));
    assert_eq!(summarize(b"A;+1.5\n"), Err(AggregateError::Parse { offset: 2 }));
}

#[test]
fn an_empty_key_is_refused() {
    assert_eq!(summarize(b"A;1.0\n;2.0\n"), Err(AggregateError::EmptyKey { offset: 6 }));
}

#[test]
fn input_that_ends_inside_a_key_is_truncated() {
    assert_eq!(summarize(b"A;1.0\nBC"), Err(AggregateError::TruncatedInput { offset: 6 }));
}

#[test]
fn a_full_store_refuses_a_new_key() {
    assert_eq!(
        aggregate_records(b"ab;1.0\nab;2.0\nac;3.0\nad;4.0\n", 3).err(),
        Some(AggregateError::KeyCapacityExceeded { offset: 21 })
    );
    assert!(aggregate_records(b"ab;1.0\nab;2.0\nac;3.0\n", 3).is_ok());
    assert_eq!(
        aggregate_records(b"abcd;1.0\n", 3).err(),
        Some(AggregateError::KeyCapacityExceeded { offset: 0 })
    );
}

#[test]
fn the_store_grows_with_the_keys_not_with_the_records() {
    let mut input: Vec<u8> = Vec::new();
    for round in 0..100 {
        for key in 0..10000 {
            input.extend_from_slice(format!("k{:04};{}.{}\n", key, round, key % 10).as_bytes());
        }
    }
    let nodes = 1 + 10 + 100 + 1000 + 10000;
    let trie = aggregate_records(&input, nodes).unwrap();
    let stat = trie.get_stat(b"k0042").unwrap();
    assert_eq!(stat.count(), 100);
    assert_eq!(stat.min(), 2);
    assert_eq!(stat.max(), 992);
    assert_eq!(stat.sum(), 49700);
    assert_eq!(trie.get_all_words_and_stats().len(), 10000);
    assert_eq!(
        aggregate_records(&input, nodes - 1).err(),
        Some(AggregateError::KeyCapacityExceeded { offset: 9999 * 10 })
    );
}

#[test]
fn the_line_is_the_same_however_the_records_are_ordered() {
    assert_eq!(line(b"A;10.0\nB;20.0\nA;5.0\n"), line(b"A;5.0\nA;10.0\nB;20.0\n"));
    assert_eq!(line(b"A;10.0\nB;20.0\nA;5.0\n"), line(b"B;20.0\nA;5.0\nA;10.0\n"));
}

#[test]
fn the_same_input_gives_the_same_line() {
    let input = b"X;1.5\nX;2.5\nX;-1.0\nY;0.0\n";
    assert_eq!(summarize(input), summarize(input));
}

#[test]
fn a_key_seen_once_is_written_with_its_value_three_times() {
    assert_eq!(line(b"only;-12.3\n"), "{only=-12.3/-12.3/-12.3}");
}

#[test]
fn keys_may_hold_any_byte_but_the_separators() {
    assert_eq!(
        summarize(b"\xc3\xa9t\xc3\xa9;1.0\n a=b,{};2.0\n"),
        Ok(b"{ a=b,{}=2.0/2.0/2.0,\xc3\xa9t\xc3\xa9=1.0/1.0/1.0}".to_vec())
    );
}

#[test]
fn the_first_fault_ends_the_batch() {
    assert_eq!(summarize(b"A;x\nB"), Err(AggregateError::Parse { offset: 2 }));
    assert_eq!(summarize(b";1.0\nB;x\n"), Err(AggregateError::EmptyKey { offset: 0 }));
    assert_eq!(summarize(b"A;1.0\n;x"), Err(AggregateError::EmptyKey { offset: 6 }));
    assert_eq!(summarize(b"A;1.0"), Err(AggregateError::TruncatedInput { offset: 0 }));
    assert_eq!(summarize(b"A"), Err(AggregateError::TruncatedInput { offset: 0 }));
    assert_eq!(summarize(b"A;"), Err(AggregateError::TruncatedInput { offset: 0 }));
}

#[test]
fn a_carriage_return_is_no_part_of_a_value() {
    assert_eq!(summarize(b"A;1.0\r\n"), Err(AggregateError::Parse { offset: 2 }));
}

#[test]
fn long_inputs_are_summarized_across_windows() {
    let mut input: Vec<u8> = Vec::new();
    let mut sum = 0i64;
    for n in 0..5000i64 {
        let value = (n * 37) % 1999 - 999;
        sum += value;
        let sign = if value < 0 { "-" } else { "" };
        input.extend_from_slice(
            format!("station{};{}{}.{}\n", n % 7, sign, value.abs() / 10, value.abs() % 10)
                .as_bytes(),
        );
    }
    let trie = aggregate_records(&input, u32::MAX).unwrap();
    let mut total = 0i64;
    let mut count = 0u64;
    for (_, stat) in trie.get_all_words_and_stats() {
        total += stat.sum();
        count += stat.count();
    }
    assert_eq!((total, count), (sum, 5000));
    assert_eq!(trie.get_all_words_and_stats().len(), 7);
}
