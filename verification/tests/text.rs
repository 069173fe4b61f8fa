use otterly::string_map::StringMap;
use otterly::text::{
    chars_of, digits_of, find_first, find_last, join, lowered, relate, same_text, space, split,
    string_of, trimmed, Relation,
};

fn chars(value: &str) -> Vec<char> {
    value.chars().collect()
}

#[test]
fn white_space_is_that_of_unicode() {
    for code in 0..=0x10ffff_u32 {
        if let Some(c) = char::from_u32(code) {
            assert_eq!(space(c), c.is_whitespace());
        }
    }
}

#[test]
fn trimming_takes_white_space_off_both_ends() {
    let value = chars("\u{a0} \tab c\n");
    assert_eq!(string_of(trimmed(&value)), "ab c");
    assert_eq!(trimmed(&chars(" \n ")).len(), 0);
}

#[test]
fn texts_are_in_the_order_of_their_bytes() {
    let values = ["", "A", "Z", "a", "ab", "b", "\u{e4}", "\u{ffff}", "\u{10000}"];
    for a in values {
        for b in values {
            let expected = a.cmp(b);
            let got = match relate(a, b) {
                Relation::Less => std::cmp::Ordering::Less,
                Relation::Equal => std::cmp::Ordering::Equal,
                Relation::Greater => std::cmp::Ordering::Greater,
            };
            assert_eq!(got, expected);
            assert_eq!(same_text(a, b), a == b);
        }
    }
}

#[test]
fn splitting_and_joining_undo_each_other() {
    for value in ["", "/", "a/b", "/a//b/", "abc"] {
        let value_chars = chars_of(value);
        let parts = split(&value_chars, '/');
        assert_eq!(parts.len(), value.split('/').count());
        assert_eq!(string_of(&join(&parts, &['/'])), value);
    }
}

#[test]
fn characters_are_found_from_either_end() {
    let value = chars("a/b/c");
    assert_eq!(find_first(&value, '/'), 1);
    assert_eq!(find_first(&value, 'x'), 5);
    assert_eq!(find_last(&value, '/'), Some(3));
    assert_eq!(find_last(&value, 'x'), None);
}

#[test]
fn only_ascii_letters_are_lowered() {
    assert_eq!(string_of(&lowered(&chars("AbZ\u{c4}1"))), "abz\u{c4}1");
}

#[test]
fn numbers_are_written_in_decimal() {
    assert_eq!(string_of(&digits_of(0)), "0");
    assert_eq!(string_of(&digits_of(1_700_000_000_123)), "1700000000123");
    assert_eq!(string_of(&digits_of(u64::MAX)), u64::MAX.to_string());
}

#[test]
fn map_keeps_its_keys_in_order() {
    let mut map: StringMap<u32> = StringMap::new();
    for (key, value) in [("b", 1), ("a", 2), ("c", 3), ("a", 4)] {
        map.insert(key.to_string(), value);
    }
    assert_eq!(map.len(), 3);
    assert_eq!(map.key_at(0), "a");
    assert_eq!(map.key_at(2), "c");
    assert_eq!(map.get("a"), Some(&4));
    assert_eq!(map.get("d"), None);
    assert_eq!(map.remove("b"), Some(1));
    assert_eq!(map.remove("b"), None);
    assert!(!map.contains_key("b"));
    assert_eq!(map.len(), 2);
}
