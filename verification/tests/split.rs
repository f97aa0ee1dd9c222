use keyed_stats::batch::aggregate_records;
use keyed_stats::format::format_summary;
use keyed_stats::split::next_line_start;

#[test]
fn a_line_starts_behind_each_line_separator() {
    let input = b"ab;1.0\ncd;2.0\n";
    assert_eq!(next_line_start(input, 0), 0);
    assert_eq!(next_line_start(input, 1), 7);
    assert_eq!(next_line_start(input, 6), 7);
    assert_eq!(next_line_start(input, 7), 7);
    assert_eq!(next_line_start(input, 8), 14);
    assert_eq!(next_line_start(input, 14), 14);
    assert_eq!(next_line_start(input, 15), 14);
    assert_eq!(next_line_start(input, usize::MAX), 14);
}

#[test]
fn without_a_line_separator_the_next_line_starts_at_the_end() {
    assert_eq!(next_line_start(b"", 0), 0);
    assert_eq!(next_line_start(b"", 5), 0);
    assert_eq!(next_line_start(b"abc", 0), 0);
    assert_eq!(next_line_start(b"abc", 1), 3);
    assert_eq!(next_line_start(b"a\nbc", 2), 2);
    assert_eq!(next_line_start(b"a\nbc", 3), 4);
}

#[test]
fn parts_cut_at_line_starts_merge_to_the_whole() {
    let mut input: Vec<u8> = Vec::new();
    for n in 0..40i32 {
        let value = (n * 53) % 199 - 99;
        let sign = if value < 0 { "-" } else { "" };
        input.extend_from_slice(
            format!("key{};{}{}.{}\n", n % 6, sign, value.abs() / 10, value.abs() % 10).as_bytes(),
        );
    }
    let whole = format_summary(&aggregate_records(&input, u32::MAX).unwrap());
    for first in 0..=input.len() {
        let a = next_line_start(&input, first);
        let b = next_line_start(&input, a + (input.len() - a) / 2);
        let mut store = aggregate_records(&input[..a], u32::MAX).unwrap();
        let middle = aggregate_records(&input[a..b], u32::MAX).unwrap();
        let last = aggregate_records(&input[b..], u32::MAX).unwrap();
        let mut tail = last;
        tail.merge_from(&middle).unwrap();
        store.merge_from(&tail).unwrap();
        assert_eq!(format_summary(&store), whole, "cut at {} and {}", a, b);
    }
}
