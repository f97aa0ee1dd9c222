use keyed_stats::decimal::atoi_times_ten;
use keyed_stats::stats::Statistics;
use keyed_stats::trie::{InsertError, StatisticsTrie};

#[test]
pub fn atoi_float() {
    let s = "32.8".as_bytes();
    let i: i16 = atoi_times_ten(s).unwrap();
    assert_eq!(328, i);
}

#[test]
pub fn test_trie() {
    let word = "abc".as_bytes();
    let mut trie = StatisticsTrie::new();
    trie.insert(word, 67).unwrap();
    assert!(trie.get_stat(b"a").is_none());
    assert!(trie.get_stat(b"ab").is_none());
    assert!(!trie.get_stat(b"abc").is_none());
    println!("{}", trie.get_stat(b"abc").unwrap().to_text());
}

fn listed(trie: &StatisticsTrie) -> Vec<(Vec<u8>, i16, i16, i64, u64)> {
    trie.get_all_words_and_stats()
        .into_iter()
        .map(|(key, s)| (key, s.min(), s.max(), s.sum(), s.count()))
        .collect()
}

#[test]
fn a_key_seen_once_has_its_value_three_times() {
    let mut trie = StatisticsTrie::new();
    trie.insert(b"abc", 67).unwrap();
    let stat = trie.get_stat(b"abc").unwrap();
    assert_eq!((stat.min(), stat.mean(), stat.max()), (67, 67, 67));
    assert_eq!((stat.sum(), stat.count()), (67, 1));
    assert_eq!(stat.to_text(), "6.7/6.7/6.7");
}

#[test]
fn insert_takes_values_into_the_key_they_come_with() {
    let mut trie = StatisticsTrie::new();
    trie.insert(b"ab", 10).unwrap();
    trie.insert(b"a", -5).unwrap();
    trie.insert(b"ab", 30).unwrap();
    trie.insert(b"abc", 7).unwrap();
    trie.insert(b"ab", -20).unwrap();
    let ab = trie.get_stat(b"ab").unwrap();
    assert_eq!((ab.min(), ab.max(), ab.sum(), ab.count()), (-20, 30, 20, 3));
    let a = trie.get_stat(b"a").unwrap();
    assert_eq!((a.min(), a.max(), a.sum(), a.count()), (-5, -5, -5, 1));
    assert!(trie.get_stat(b"").is_none());
    assert!(trie.get_stat(b"b").is_none());
    assert!(trie.get_stat(b"abcd").is_none());
}

#[test]
fn a_first_value_is_minimum_and_maximum_whatever_its_sign() {
    let mut trie = StatisticsTrie::new();
    trie.insert(b"warm", 120).unwrap();
    trie.insert(b"warm", 150).unwrap();
    trie.insert(b"cold", -120).unwrap();
    trie.insert(b"cold", -150).unwrap();
    let warm = trie.get_stat(b"warm").unwrap();
    assert_eq!((warm.min(), warm.max()), (120, 150));
    let cold = trie.get_stat(b"cold").unwrap();
    assert_eq!((cold.min(), cold.max()), (-150, -120));
}

#[test]
fn the_empty_key_is_refused() {
    let mut trie = StatisticsTrie::new();
    assert_eq!(trie.insert(b"", 1), Err(InsertError::EmptyKey));
    assert!(trie.get_stat(b"").is_none());
    assert!(trie.get_all_words_and_stats().is_empty());
}

#[test]
fn a_full_arena_refuses_a_key_and_stays_as_it_is() {
    let mut trie = StatisticsTrie::with_node_limit(3);
    assert_eq!(trie.insert(b"abc", 1), Ok(()));
    assert_eq!(trie.insert(b"abd", 2), Err(InsertError::KeyCapacityExceeded));
    assert_eq!(trie.insert(b"x", 2), Err(InsertError::KeyCapacityExceeded));
    assert_eq!(trie.insert(b"ab", 5), Ok(()));
    assert_eq!(trie.insert(b"abc", 3), Ok(()));
    assert_eq!(
        listed(&trie),
        vec![(b"ab".to_vec(), 5, 5, 5, 1), (b"abc".to_vec(), 1, 3, 4, 2)]
    );
    let mut none = StatisticsTrie::with_node_limit(0);
    assert_eq!(none.insert(b"a", 1), Err(InsertError::KeyCapacityExceeded));
    assert_eq!(none.find_child(0, b'a'), 0);
}

#[test]
fn a_key_that_needs_more_nodes_than_are_left_adds_none() {
    let mut trie = StatisticsTrie::with_node_limit(4);
    assert_eq!(trie.insert(b"ab", 1), Ok(()));
    assert_eq!(trie.insert(b"acde", 2), Err(InsertError::KeyCapacityExceeded));
    assert_eq!(trie.find_child(1, b'c'), 0);
    assert_eq!(trie.insert(b"acd", 2), Ok(()));
    assert_eq!(trie.find_child(1, b'c'), 3);
}

#[test]
fn children_are_found_and_made_by_index() {
    let mut trie = StatisticsTrie::with_node_limit(2);
    assert_eq!(trie.find_child(0, b'a'), 0);
    assert_eq!(trie.find_child(7, b'a'), 0);
    assert_eq!(trie.get_or_create_child(0, b'a'), 1);
    assert_eq!(trie.get_or_create_child(0, b'a'), 1);
    assert_eq!(trie.find_child(0, b'a'), 1);
    assert_eq!(trie.get_or_create_child(1, b'b'), 2);
    assert_eq!(trie.find_child(1, b'b'), 2);
    assert_eq!(trie.get_or_create_child(2, b'c'), 0);
    assert_eq!(trie.get_or_create_child(9, b'c'), 0);
    assert_eq!(trie.get_or_create_child(1, b'b'), 2);
    assert!(trie.get_all_words_and_stats().is_empty());
    assert_eq!(trie.insert(b"ab", 4), Ok(()));
    assert_eq!(listed(&trie), vec![(b"ab".to_vec(), 4, 4, 4, 1)]);
}

#[test]
fn a_node_gives_its_word_and_statistics() {
    let mut trie = StatisticsTrie::new();
    trie.insert(b"abc", 67).unwrap();
    trie.insert(b"abd", -3).unwrap();
    assert!(trie.get_word_and_stat(0).is_none());
    assert!(trie.get_word_and_stat(1).is_none());
    assert!(trie.get_word_and_stat(2).is_none());
    let (word, stat) = trie.get_word_and_stat(3).unwrap();
    assert_eq!(word, b"abc".to_vec());
    assert_eq!((stat.min(), stat.max(), stat.sum(), stat.count()), (67, 67, 67, 1));
    let (word, stat) = trie.get_word_and_stat(4).unwrap();
    assert_eq!(word, b"abd".to_vec());
    assert_eq!(stat.sum(), -3);
    assert!(trie.get_word_and_stat(5).is_none());
    assert!(trie.get_word_and_stat(u32::MAX).is_none());
}

#[test]
fn all_words_come_in_byte_order_whatever_the_order_of_insertion() {
    let keys: [&[u8]; 9] =
        [b"b", b"ab", b"a", b"B", b"aa", b"\xffz", b"a\x00", b"abc", b"\x01"];
    let mut forward = StatisticsTrie::new();
    for (n, key) in keys.iter().enumerate() {
        forward.insert(key, n as i16).unwrap();
    }
    let mut backward = StatisticsTrie::new();
    for (n, key) in keys.iter().enumerate().rev() {
        backward.insert(key, n as i16).unwrap();
    }
    let expected: Vec<(Vec<u8>, i16, i16, i64, u64)> = vec![
        (b"\x01".to_vec(), 8, 8, 8, 1),
        (b"B".to_vec(), 3, 3, 3, 1),
        (b"a".to_vec(), 2, 2, 2, 1),
        (b"a\x00".to_vec(), 6, 6, 6, 1),
        (b"aa".to_vec(), 4, 4, 4, 1),
        (b"ab".to_vec(), 1, 1, 1, 1),
        (b"abc".to_vec(), 7, 7, 7, 1),
        (b"b".to_vec(), 0, 0, 0, 1),
        (b"\xffz".to_vec(), 5, 5, 5, 1),
    ];
    assert_eq!(listed(&forward), expected);
    assert_eq!(listed(&backward), expected);
}

#[test]
fn merging_two_tries_gives_what_one_trie_gives() {
    let records: [(&[u8], i16); 8] = [
        (b"ab", 10),
        (b"a", -5),
        (b"ab", 30),
        (b"abc", 7),
        (b"zz", 1),
        (b"ab", -20),
        (b"a", 5),
        (b"q", 0),
    ];
    let mut whole = StatisticsTrie::new();
    for (key, value) in records.iter() {
        whole.insert(key, *value).unwrap();
    }
    for mask in 0..256u32 {
        let mut left = StatisticsTrie::new();
        let mut right = StatisticsTrie::new();
        for (n, (key, value)) in records.iter().enumerate() {
            if mask & (1 << n) != 0 {
                left.insert(key, *value).unwrap();
            } else {
                right.insert(key, *value).unwrap();
            }
        }
        let mut other_way = StatisticsTrie::new();
        other_way.merge_from(&right).unwrap();
        other_way.merge_from(&left).unwrap();
        left.merge_from(&right).unwrap();
        assert_eq!(listed(&left), listed(&whole), "mask {}", mask);
        assert_eq!(listed(&other_way), listed(&whole), "mask {}", mask);
    }
}

#[test]
fn a_merge_without_room_changes_nothing() {
    let mut small = StatisticsTrie::with_node_limit(3);
    small.insert(b"ab", 1).unwrap();
    let mut other = StatisticsTrie::new();
    other.insert(b"ab", 2).unwrap();
    other.insert(b"cd", 3).unwrap();
    assert_eq!(small.merge_from(&other), Err(InsertError::KeyCapacityExceeded));
    assert_eq!(listed(&small), vec![(b"ab".to_vec(), 1, 1, 1, 1)]);
    assert_eq!(small.find_child(0, b'c'), 0);
    let mut other = StatisticsTrie::new();
    other.insert(b"ab", 2).unwrap();
    other.insert(b"c", 3).unwrap();
    assert_eq!(small.merge_from(&other), Ok(()));
    assert_eq!(
        listed(&small),
        vec![(b"ab".to_vec(), 1, 2, 3, 2), (b"c".to_vec(), 3, 3, 3, 1)]
    );
}

#[test]
fn statistics_come_out_as_a_copy() {
    let mut trie = StatisticsTrie::new();
    trie.insert(b"k", 5).unwrap();
    let mut copy: Statistics = trie.get_stat(b"k").unwrap();
    copy.add_val(100);
    assert_eq!(trie.get_stat(b"k").unwrap().count(), 1);
    assert_eq!(copy.count(), 2);
}
