use message_log::key::{message_key, topic_prefix, OFFSET_WIDTH};

#[test]
fn prefix_wraps_the_topic() {
    assert_eq!(topic_prefix("orders"), "topics/orders/");
    assert_eq!(topic_prefix(""), "topics//");
    assert_eq!(topic_prefix("a/b"), "topics/a/b/");
}

#[test]
fn key_pads_the_offset_to_twenty_digits() {
    assert_eq!(message_key("orders", 1), "topics/orders/00000000000000000001");
    assert_eq!(message_key("orders", 0), "topics/orders/00000000000000000000");
    assert_eq!(message_key("orders", 1234567890), "topics/orders/00000000001234567890");
    assert_eq!(message_key("orders", i64::MAX), "topics/orders/09223372036854775807");
}

#[test]
fn key_of_a_negative_offset_spends_one_place_on_the_sign() {
    assert_eq!(message_key("orders", -5), "topics/orders/-0000000000000000005");
    assert_eq!(message_key("orders", i64::MIN), "topics/orders/-9223372036854775808");
}

#[test]
fn key_agrees_with_the_standard_formatter() {
    for offset in [0i64, 1, 9, 10, 99, 100, 12345, -1, -12345, i64::MAX, i64::MIN] {
        assert_eq!(message_key("t", offset), format!("topics/{}/{:020}", "t", offset));
    }
}

#[test]
fn key_is_the_prefix_and_twenty_more() {
    for offset in [0i64, 7, -7, i64::MAX, i64::MIN] {
        let key = message_key("événements", offset);
        let prefix = topic_prefix("événements");
        assert!(key.starts_with(&prefix));
        assert_eq!(key.chars().count(), prefix.chars().count() + OFFSET_WIDTH as usize);
    }
}

#[test]
fn keys_are_ordered_as_offsets_are() {
    let offsets = [0i64, 1, 2, 9, 10, 11, 99, 100, 101, 999_999, 1_000_000, i64::MAX - 1, i64::MAX];
    for a in offsets {
        for b in offsets {
            let ka = message_key("orders", a);
            let kb = message_key("orders", b);
            assert_eq!(ka < kb, a < b, "offsets {} and {}", a, b);
            assert_eq!(ka.as_bytes() < kb.as_bytes(), a < b, "offsets {} and {}", a, b);
            assert_eq!(ka == kb, a == b);
        }
    }
}
