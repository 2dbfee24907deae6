use kv_engine::order::{compare_keys, key_equal, key_less, KeyOrder};

#[test]
fn shorter_key_is_less_when_prefix() {
    assert_eq!(compare_keys(b"ab", b"abc"), KeyOrder::Less);
    assert_eq!(compare_keys(b"abc", b"ab"), KeyOrder::Greater);
    assert_eq!(compare_keys(b"", b"a"), KeyOrder::Less);
}

#[test]
fn bytes_compare_unsigned() {
    assert_eq!(compare_keys(&[0x7f], &[0x80]), KeyOrder::Less);
    assert_eq!(compare_keys(&[0xff], &[0x00, 0x01]), KeyOrder::Greater);
    assert!(key_less(&[0x01, 0xff], &[0x02]));
}

#[test]
fn equal_keys_compare_equal() {
    assert_eq!(compare_keys(b"key", b"key"), KeyOrder::Equal);
    assert!(key_equal(b"", b""));
    assert!(!key_less(b"key", b"key"));
}

#[test]
fn comparison_is_a_total_order_on_samples() {
    let keys: Vec<&[u8]> = vec![b"", b"\x00", b"\x00\x00", b"a", b"a\x00", b"ab", b"b", b"\xff", b"\xff\xff"];
    for (i, a) in keys.iter().enumerate() {
        for (j, b) in keys.iter().enumerate() {
            let want = if i < j {
                KeyOrder::Less
            } else if i == j {
                KeyOrder::Equal
            } else {
                KeyOrder::Greater
            };
            assert_eq!(compare_keys(a, b), want);
            assert_eq!(key_less(a, b), i < j);
            assert_eq!(key_equal(a, b), i == j);
        }
    }
}
