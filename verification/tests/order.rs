use keyed_stats::order::key_lt;

#[test]
fn keys_are_ordered_byte_by_byte() {
    assert!(key_lt(b"a", b"b"));
    assert!(!key_lt(b"b", b"a"));
    assert!(key_lt(b"B", b"a"));
    assert!(key_lt(b"ab", b"b"));
    assert!(key_lt(b"a\x00", b"aa"));
    assert!(key_lt(b"z", b"\x80"));
    assert!(key_lt(b"\x7f", b"\xff"));
}

#[test]
fn a_key_comes_before_what_it_is_a_prefix_of() {
    assert!(key_lt(b"", b"a"));
    assert!(key_lt(b"a", b"aa"));
    assert!(key_lt(b"abc", b"abcd"));
    assert!(!key_lt(b"abcd", b"abc"));
    assert!(!key_lt(b"a", b""));
}

#[test]
fn no_key_comes_before_itself() {
    assert!(!key_lt(b"", b""));
    assert!(!key_lt(b"abc", b"abc"));
}

#[test]
fn the_order_is_the_order_of_byte_slices() {
    let keys: [&[u8]; 10] =
        [b"", b"a", b"ab", b"abc", b"b", b"B", b"\x00", b"\xff", b"a\xff", b"aa"];
    for a in keys {
        for b in keys {
            assert_eq!(key_lt(a, b), a < b, "{:?} {:?}", a, b);
        }
    }
}
