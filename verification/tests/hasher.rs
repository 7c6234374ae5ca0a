use hash_s2t::hasher::default_hash;
use hash_s2t::text::same_text;

#[test]
fn hash_of_the_sample_keys() {
    // W=87 o=111 f=102 f=102 o=111: 513 = 2 * 256 + 1
    assert_eq!(default_hash("Woffo", 256), 1);
    // G=71 a=97 t=116 o=111: 395 = 256 + 139
    assert_eq!(default_hash("Gato", 256), 139);
    // the same again
    assert_eq!(default_hash("Woffo", 256), 1);
    assert_eq!(default_hash("Gato", 256), 139);
}

#[test]
fn hash_is_the_sum_of_code_points_modulo_capacity() {
    assert_eq!(default_hash("", 256), 0);
    assert_eq!(default_hash("a", 256), 97);
    assert_eq!(default_hash("a", 97), 0);
    assert_eq!(default_hash("a", 96), 1);
    assert_eq!(default_hash("ab", 1000), 195);
    assert_eq!(default_hash("abc", 10), 4);
    assert_eq!(default_hash("anything", 1), 0);
    assert_eq!(default_hash("key_4999", 256), (107 + 101 + 121 + 95 + 52 + 57 + 57 + 57) % 256);
}

#[test]
fn hash_counts_code_points_not_bytes() {
    // U+00E9 is one character of two bytes
    assert_eq!(default_hash("é", 1000), 0xE9);
    // U+1F600 is one character of four bytes
    assert_eq!(default_hash("\u{1F600}", 1 << 20), 0x1F600);
    assert_eq!(default_hash("\u{1F600}", 256), 0);
    assert_eq!(default_hash("a\u{1F600}", 256), 97);
    assert_eq!(default_hash("\u{10FFFF}", 1 << 24), 0x10FFFF);
}

#[test]
fn hash_ignores_the_order_of_characters() {
    assert_eq!(default_hash("listen", 256), default_hash("silent", 256));
    assert_eq!(default_hash("abc", 5), default_hash("cba", 5));
    assert_eq!(default_hash("abc", 5), default_hash("bca", 5));
    assert_eq!(default_hash("aab", 251), default_hash("aba", 251));
}

#[test]
fn hash_is_below_the_capacity() {
    for capacity in 1..50usize {
        for key in ["", "a", "zz", "Woffo", "Gato", "\u{10FFFF}\u{10FFFF}"] {
            assert!(default_hash(key, capacity) < capacity);
        }
    }
}

#[test]
fn hash_of_a_long_key_with_a_large_capacity() {
    let key = "\u{10FFFF}".repeat(100_000);
    let expected = (0x10FFFFu128 * 100_000) % (usize::MAX as u128);
    assert_eq!(default_hash(&key, usize::MAX) as u128, expected);
    assert_eq!(default_hash(&key, 1_000_003), ((0x10FFFFu64 * 100_000) % 1_000_003) as usize);
}

#[test]
fn same_text_compares_whole_keys() {
    assert!(same_text("", ""));
    assert!(same_text("key", "key"));
    assert!(!same_text("key", "kez"));
    assert!(!same_text("key", "ke"));
    assert!(!same_text("ke", "key"));
    assert!(!same_text("", "a"));
    assert!(!same_text("ab", "ba"));
    assert!(same_text("é\u{1F600}", "é\u{1F600}"));
    assert!(!same_text("é", "e\u{301}"));
    assert!(!same_text("Key", "key"));
}
