//! The draining iterator: eager removal, forward and backward stepping.

use arraystring::{ArrayString, Error};

#[test]
fn drain_yields_forward_and_detaches() {
    let mut s = ArrayString::<23>::try_from_str("ABCD\u{1F914}").unwrap();
    let mut d = s.drain(0..3).unwrap();
    assert_eq!(s.as_str(), "D\u{1F914}");
    assert_eq!(d.next(), Some('A'));
    assert_eq!(d.next(), Some('B'));
    assert_eq!(d.next(), Some('C'));
    assert_eq!(d.next(), None);
}

#[test]
fn drain_is_eager() {
    let mut s = ArrayString::<8>::try_from_str("ABCD\u{1F914}").unwrap();
    let d = s.drain(0..3).unwrap();
    drop(d);
    assert_eq!(s.as_str(), "D\u{1F914}");
}

#[test]
fn drain_error_cases() {
    let mut s = ArrayString::<23>::try_from_str("ABCD\u{1F914}").unwrap();
    let _ = s.drain(0..3).unwrap();
    assert_eq!(s.as_str(), "D\u{1F914}");
    assert!(matches!(s.drain(3..5), Err(Error::Utf8)));
    assert!(matches!(s.drain(10..10), Err(Error::OutOfBounds)));
    assert!(matches!(s.drain(3..1), Err(Error::OutOfBounds)));
    assert_eq!(s.as_str(), "D\u{1F914}");
}

#[test]
fn drain_as_str_shows_the_rest() {
    let mut s = ArrayString::<23>::try_from_str("hello").unwrap();
    let mut d = s.drain(0..5).unwrap();
    assert_eq!(d.as_str(), "hello");
    assert_eq!(d.next(), Some('h'));
    assert_eq!(d.as_str(), "ello");
}

#[test]
fn drain_backward_pops_from_the_tail() {
    let mut s = ArrayString::<23>::try_from_str("ABC\u{1F914}").unwrap();
    let mut d = s.drain(0..7).unwrap();
    assert_eq!(d.next_back(), Some('\u{1F914}'));
    assert_eq!(d.next_back(), Some('C'));
    assert_eq!(d.next_back(), Some('B'));
    assert_eq!(d.next_back(), Some('A'));
    assert_eq!(d.next_back(), None);
}

#[test]
fn drain_never_yields_a_char_twice() {
    let mut s = ArrayString::<23>::try_from_str("ABC\u{1F914}").unwrap();
    let mut d = s.drain(0..7).unwrap();
    assert_eq!(d.next(), Some('A'));
    assert_eq!(d.next_back(), Some('\u{1F914}'));
    assert_eq!(d.next(), Some('B'));
    assert_eq!(d.next_back(), Some('C'));
    assert_eq!(d.next(), None);
    assert_eq!(d.next_back(), None);
}
