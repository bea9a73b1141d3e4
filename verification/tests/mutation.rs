//! Mutating operations: push, truncate, pop, trim, remove, retain,
//! insert, split and range replacement.

use arraystring::{ArrayString, Error, OutOfBounds, Utf8};

#[test]
fn try_push_str_appends_or_rejects() {
    let mut s = ArrayString::<255>::try_from_str("My String").unwrap();
    s.try_push_str(" My other String").unwrap();
    assert_eq!(s.as_str(), "My String My other String");
    let big = "0".repeat(255);
    assert_eq!(s.try_push_str(&big), Err(OutOfBounds));
    assert_eq!(s.as_str(), "My String My other String");
}

#[test]
fn push_str_truncates_at_boundary() {
    let mut s = ArrayString::<23>::default();
    s.push_str(&"0".repeat(24));
    assert_eq!(s.as_str(), "0".repeat(23));
    let mut s = ArrayString::<8>::try_from_str("ABCDE").unwrap();
    s.push_str("\u{1F914}x");
    // neither the 4-byte emoji nor anything after it fits in 3 bytes
    assert_eq!(s.as_str(), "ABCDE");
}

#[test]
fn try_push_appends_one_char() {
    let mut s = ArrayString::<23>::try_from_str("My String").unwrap();
    s.try_push('!').unwrap();
    assert_eq!(s.as_str(), "My String!");
    let mut s = ArrayString::<23>::try_from_str(&"0".repeat(23)).unwrap();
    assert_eq!(s.try_push('!'), Err(OutOfBounds));
}

#[test]
fn push_is_a_noop_when_full() {
    let mut s = ArrayString::<5>::try_from_str("ABCD").unwrap();
    s.push('\u{1F914}');
    assert_eq!(s.as_str(), "ABCD");
    s.push('E');
    assert_eq!(s.as_str(), "ABCDE");
}

#[test]
fn truncate_cuts_at_boundary_or_fails() {
    let mut s = ArrayString::<23>::try_from_str("My String").unwrap();
    s.truncate(5).unwrap();
    assert_eq!(s.as_str(), "My St");
    s.truncate(6).unwrap();
    assert_eq!(s.as_str(), "My St");
    let mut s = ArrayString::<23>::try_from_str("\u{1F914}").unwrap();
    assert_eq!(s.truncate(1), Err(Utf8));
    assert_eq!(s.as_str(), "\u{1F914}");
}

#[test]
fn truncate_twice_is_a_noop() {
    let mut s = ArrayString::<23>::try_from_str("My String").unwrap();
    s.truncate(5).unwrap();
    let once = s.clone();
    s.truncate(5).unwrap();
    assert_eq!(s, once);
}

#[test]
fn pop_takes_from_the_back() {
    let mut s = ArrayString::<23>::try_from_str("A\u{1F914}").unwrap();
    assert_eq!(s.pop(), Some('\u{1F914}'));
    assert_eq!(s.pop(), Some('A'));
    assert_eq!(s.pop(), None);
}

#[test]
fn trim_strips_only_ascii_spaces() {
    let mut s = ArrayString::<255>::try_from_str("   to be trimmed     ").unwrap();
    s.trim();
    assert_eq!(s.as_str(), "to be trimmed");
    let mut s = ArrayString::<23>::try_from_str("   \u{1F914}").unwrap();
    s.trim();
    assert_eq!(s.as_str(), "\u{1F914}");
    let mut s = ArrayString::<23>::try_from_str("\tkeep\n").unwrap();
    s.trim();
    assert_eq!(s.as_str(), "\tkeep\n");
}

#[test]
fn trim_twice_equals_trim_once() {
    let mut s = ArrayString::<32>::try_from_str("  spaced out  ").unwrap();
    s.trim();
    let once = s.clone();
    s.trim();
    assert_eq!(s, once);
}

#[test]
fn remove_scenario_on_emoji_buffer() {
    // capacity 8, "ABCD" plus a 4-byte emoji fills it exactly
    let mut s = ArrayString::<8>::try_from_str("ABCD\u{1F914}").unwrap();
    assert_eq!(s.len(), 8);
    assert_eq!(s.remove(8), Err(Error::OutOfBounds));
    assert_eq!(s.remove(6), Err(Error::Utf8));
    assert_eq!(s.remove(0), Ok('A'));
    assert_eq!(s.as_str(), "BCD\u{1F914}");
    assert_eq!(s.remove(2), Ok('D'));
    assert_eq!(s.as_str(), "BC\u{1F914}");
}

#[test]
fn retain_keeps_matching_chars() {
    let mut s = ArrayString::<23>::try_from_str("ABCD\u{1F914}").unwrap();
    s.retain(|c| c != '\u{1F914}');
    assert_eq!(s.as_str(), "ABCD");
    let mut s = ArrayString::<23>::try_from_str("a1b2c3").unwrap();
    s.retain(|c| c.is_ascii_digit());
    assert_eq!(s.as_str(), "123");
}

#[test]
fn try_insert_shifts_the_tail() {
    let mut s = ArrayString::<23>::try_from_str("ABCD\u{1F914}").unwrap();
    s.try_insert(1, 'A').unwrap();
    s.try_insert(2, 'B').unwrap();
    assert_eq!(s.as_str(), "AABBCD\u{1F914}");
    assert_eq!(s.try_insert(20, 'C'), Err(Error::OutOfBounds));
    assert_eq!(s.try_insert(8, 'D'), Err(Error::Utf8));
    let mut s = ArrayString::<23>::try_from_str(&"0".repeat(23)).unwrap();
    assert_eq!(s.try_insert(0, 'C'), Err(Error::OutOfBounds));
}

#[test]
fn try_insert_str_shifts_the_tail() {
    let mut s = ArrayString::<23>::try_from_str("ABCD\u{1F914}").unwrap();
    s.try_insert_str(1, "AB").unwrap();
    s.try_insert_str(1, "BC").unwrap();
    assert_eq!(
        s.try_insert_str(1, &"0".repeat(23)),
        Err(Error::OutOfBounds)
    );
    assert_eq!(s.as_str(), "ABCABBCD\u{1F914}");
    assert_eq!(s.try_insert_str(20, "C"), Err(Error::OutOfBounds));
    assert_eq!(s.try_insert_str(10, "D"), Err(Error::Utf8));
}

#[test]
fn insert_str_truncates_to_fit() {
    let mut s = ArrayString::<23>::try_from_str("ABCD\u{1F914}").unwrap();
    s.insert_str(1, "AB").unwrap();
    s.insert_str(1, "BC").unwrap();
    assert_eq!(s.as_str(), "ABCABBCD\u{1F914}");
    assert_eq!(s.insert_str(20, "C"), Err(Error::OutOfBounds));
    assert_eq!(s.insert_str(10, "D"), Err(Error::Utf8));
    s.clear();
    s.insert_str(0, &"0".repeat(33)).unwrap();
    assert_eq!(s.as_str(), "0".repeat(23));
}

#[test]
fn split_off_detaches_the_tail() {
    let mut s = ArrayString::<23>::try_from_str("AB\u{1F914}CD").unwrap();
    assert_eq!(s.split_off(6).unwrap().as_str(), "CD");
    assert_eq!(s.as_str(), "AB\u{1F914}");
    assert!(matches!(s.split_off(20), Err(Error::OutOfBounds)));
    assert!(matches!(s.split_off(4), Err(Error::Utf8)));
}

#[test]
fn replace_range_scenario() {
    let mut s = ArrayString::<32>::try_from_str("ABCD\u{1F914}").unwrap();
    s.replace_range(2..4, "EFGHI").unwrap();
    assert_eq!(s.as_str(), "ABEFGHI\u{1F914}");
    assert_eq!(s.replace_range(9..11, "J"), Err(Error::Utf8));
    assert_eq!(s.replace_range(0..90, "K"), Err(Error::OutOfBounds));
    assert_eq!(
        s.replace_range(0..1, &"0".repeat(32)),
        Err(Error::OutOfBounds)
    );
    assert_eq!(s.as_str(), "ABEFGHI\u{1F914}");
}

#[test]
fn replace_range_can_shrink() {
    let mut s = ArrayString::<32>::try_from_str("ABCDEF").unwrap();
    s.replace_range(1..5, "-").unwrap();
    assert_eq!(s.as_str(), "A-F");
    assert_eq!(s.len(), 3);
}

#[test]
fn clear_empties() {
    let mut s = ArrayString::<23>::try_from_str("ABCD").unwrap();
    assert!(!s.is_empty());
    assert_eq!(s.len(), 4);
    s.clear();
    assert!(s.is_empty());
    assert_eq!(s.len(), 0);
}

#[test]
fn equality_across_capacities() {
    let a = ArrayString::<8>::try_from_str("same").unwrap();
    let b = ArrayString::<16>::try_from_str("same").unwrap();
    assert!(a == b);
    let c = ArrayString::<16>::try_from_str("diff").unwrap();
    assert!(a != c);
}

#[test]
fn ordering_follows_the_text() {
    let a = ArrayString::<8>::try_from_str("abc").unwrap();
    let b = ArrayString::<8>::try_from_str("abd").unwrap();
    let p = ArrayString::<8>::try_from_str("ab").unwrap();
    assert!(a < b);
    assert!(p < a);
    assert!(b > p);
    assert!(a <= a.clone());
    assert!(a >= a.clone());
}

#[test]
fn equality_follows_the_text() {
    let a = ArrayString::<8>::try_from_str("same").unwrap();
    let mut b = ArrayString::<8>::try_from_str("same!").unwrap();
    assert_ne!(a, b);
    assert_eq!(b.pop(), Some('!'));
    assert_eq!(a, b);
}
