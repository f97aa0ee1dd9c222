use keyed_stats::format::format_summary;
use keyed_stats::trie::StatisticsTrie;

#[test]
fn an_empty_store_is_a_pair_of_braces() {
    assert_eq!(format_summary(&StatisticsTrie::new()), b"{}".to_vec());
}

#[test]
fn one_entry_has_no_comma() {
    let mut trie = StatisticsTrie::new();
    trie.insert(b"A", 100).unwrap();
    trie.insert(b"A", 50).unwrap();
    assert_eq!(format_summary(&trie), b"{A=5.0/7.5/10.0}".to_vec());
}

#[test]
fn entries_are_joined_by_commas_in_key_order() {
    let mut trie = StatisticsTrie::new();
    trie.insert(b"b", 1).unwrap();
    trie.insert(b"a", -1).unwrap();
    trie.insert(b"ab", 0).unwrap();
    assert_eq!(
        format_summary(&trie),
        b"{a=-0.1/-0.1/-0.1,ab=0.0/0.0/0.0,b=0.1/0.1/0.1}".to_vec()
    );
    assert_eq!(format_summary(&trie), format_summary(&trie));
}
