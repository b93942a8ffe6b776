use mini_redis::expirations::{str_lt, Expirations};
use mini_redis::text::{bytes_eq, decode, str_eq};

fn pairs(index: &Expirations) -> Vec<(u128, String)> {
    (0..index.len()).map(|i| (index.time_at(i), index.key_at(i).to_string())).collect()
}

#[test]
fn keys_are_ordered_by_their_bytes() {
    assert!(str_lt("a", "b"));
    assert!(!str_lt("b", "a"));
    assert!(!str_lt("a", "a"));
    assert!(str_lt("", "a"));
    assert!(!str_lt("a", ""));
    assert!(!str_lt("", ""));
    assert!(str_lt("a", "ab"));
    assert!(str_lt("ab", "b"));
    assert!(str_lt("Z", "a"));
    assert!(str_lt("z", "\u{e9}"));
    assert_eq!(str_lt("key10", "key9"), "key10" < "key9");
}

#[test]
fn texts_are_equal_where_their_bytes_are() {
    assert!(str_eq("get", "get"));
    assert!(!str_eq("get", "GET"));
    assert!(!str_eq("get", "gets"));
    assert!(str_eq("", ""));
    assert!(bytes_eq(b"\x00\xff", b"\x00\xff"));
    assert!(!bytes_eq(b"\x00\xff", b"\x00\xfe"));
    assert!(!bytes_eq(b"", b"\x00"));
}

#[test]
fn texts_are_decoded_from_valid_utf8_only() {
    assert_eq!(decode(b"plain"), Some("plain".to_string()));
    assert_eq!(decode(b""), Some(String::new()));
    assert_eq!(decode("gr\u{fc}n \u{4e16}".as_bytes()), Some("gr\u{fc}n \u{4e16}".to_string()));
    assert_eq!(decode(b"\xff"), None);
    assert_eq!(decode(b"\xc3"), None);
    assert_eq!(decode(b"\xed\xa0\x80"), None);
    assert_eq!(decode(b"\xc0\xaf"), None);
}

#[test]
fn index_keeps_its_pairs_in_order() {
    let mut index = Expirations::new();
    assert_eq!(index.first(), None);
    assert!(index.insert(30, "c".to_string()));
    assert!(index.insert(10, "z".to_string()));
    assert!(index.insert(20, "b".to_string()));
    assert!(index.insert(10, "a".to_string()));
    assert!(index.insert(20, "a".to_string()));
    assert!(!index.insert(20, "a".to_string()));
    assert!(!index.insert(30, "c".to_string()));
    assert_eq!(
        pairs(&index),
        vec![
            (10, "a".to_string()),
            (10, "z".to_string()),
            (20, "a".to_string()),
            (20, "b".to_string()),
            (30, "c".to_string()),
        ]
    );
    assert_eq!(index.first(), Some(10));
    assert_eq!(index.len(), 5);
}

#[test]
fn index_removes_exactly_the_pair_that_is_named() {
    let mut index = Expirations::new();
    index.insert(10, "a".to_string());
    index.insert(10, "b".to_string());
    index.insert(20, "a".to_string());
    assert!(!index.remove(10, "c"));
    assert!(!index.remove(30, "a"));
    assert!(index.remove(10, "b"));
    assert!(!index.remove(10, "b"));
    assert_eq!(pairs(&index), vec![(10, "a".to_string()), (20, "a".to_string())]);
    assert!(index.remove(10, "a"));
    assert_eq!(index.first(), Some(20));
}

#[test]
fn index_drops_its_front() {
    let mut index = Expirations::new();
    for (time, key) in [(1, "a"), (2, "b"), (3, "c")] {
        index.insert(time, key.to_string());
    }
    index.drop_front(0);
    assert_eq!(index.len(), 3);
    index.drop_front(2);
    assert_eq!(pairs(&index), vec![(3, "c".to_string())]);
    index.drop_front(1);
    assert_eq!(index.len(), 0);
    assert_eq!(index.first(), None);
}
