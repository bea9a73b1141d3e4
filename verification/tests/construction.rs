//! Construction and conversion behaviour: strict and lossy policies,
//! UTF-8 and UTF-16 input, capacity boundaries.

use arraystring::{ArrayString, Error, OutOfBounds, Utf16, Utf8};
use core::str::FromStr;

#[test]
fn try_from_str_basics() {
    let s = ArrayString::<23>::try_from_str("My String").unwrap();
    assert_eq!(s.as_str(), "My String");
    assert_eq!(ArrayString::<23>::try_from_str("").unwrap().as_str(), "");
    let out_of_bounds = "0".repeat(24);
    assert_eq!(
        ArrayString::<23>::try_from_str(&out_of_bounds),
        Err(OutOfBounds)
    );
}

#[test]
fn capacity_boundary_exact_fits() {
    let exact = "0".repeat(8);
    let s = ArrayString::<8>::try_from_str(&exact).unwrap();
    assert_eq!(s.len(), 8);
    assert_eq!(s.as_str(), exact);
}

#[test]
fn capacity_boundary_one_over_fails_strict() {
    let over = "0".repeat(9);
    assert_eq!(ArrayString::<8>::try_from_str(&over), Err(OutOfBounds));
}

#[test]
fn capacity_boundary_lossy_truncates_to_capacity() {
    let over = "0".repeat(9);
    let s = ArrayString::<8>::from_str_truncate(&over);
    assert_eq!(s.len(), 8);
    assert_eq!(s.as_str(), "0".repeat(8));
}

#[test]
fn lossy_truncation_respects_char_boundary() {
    // 5 ASCII bytes plus a 4-byte emoji: 9 bytes, so only "ABCDE" fits
    // in 8 without splitting the emoji.
    let s = ArrayString::<8>::from_str_truncate("ABCDE\u{1F914}");
    assert_eq!(s.as_str(), "ABCDE");
    assert_eq!(s.len(), 5);
}

#[test]
fn try_from_iterator_concatenates() {
    let s = ArrayString::<255>::try_from_iterator(&["My String", " My Other String"]).unwrap();
    assert_eq!(s.as_str(), "My String My Other String");
    let parts = ["000"; 100];
    assert_eq!(
        ArrayString::<23>::try_from_iterator(&parts),
        Err(OutOfBounds)
    );
}

#[test]
fn from_iterator_truncates() {
    let s = ArrayString::<255>::from_iterator(&["My String", " Other String"]);
    assert_eq!(s.as_str(), "My String Other String");
    let parts = ["000"; 100];
    let s = ArrayString::<23>::from_iterator(&parts);
    // seven whole "000" parts fit in 23 bytes, then the eighth is cut
    // after two bytes
    assert_eq!(s.as_str(), "0".repeat(23));
}

#[test]
fn try_from_chars_collects() {
    let chars: Vec<char> = "My String".chars().collect();
    let s = ArrayString::<23>::try_from_chars(&chars).unwrap();
    assert_eq!(s.as_str(), "My String");
    let over: Vec<char> = "0".repeat(24).chars().collect();
    assert_eq!(ArrayString::<23>::try_from_chars(&over), Err(OutOfBounds));
}

#[test]
fn from_chars_truncates() {
    let over: Vec<char> = "0".repeat(24).chars().collect();
    let s = ArrayString::<23>::from_chars(&over);
    assert_eq!(s.as_str(), "0".repeat(23));
    let mixed: Vec<char> = "AB\u{1F914}CD".chars().collect();
    // the emoji needs bytes 2..6, so nothing past "AB" fits in 5
    let s = ArrayString::<5>::from_chars(&mixed);
    assert_eq!(s.as_str(), "AB");
}

#[test]
fn try_from_utf8_validates_then_bounds() {
    let s = ArrayString::<23>::try_from_utf8(b"My String").unwrap();
    assert_eq!(s.as_str(), "My String");
    let invalid = [0u8, 159, 146, 150];
    assert_eq!(ArrayString::<23>::try_from_utf8(&invalid), Err(Error::Utf8));
    let long = "0".repeat(300);
    assert_eq!(
        ArrayString::<23>::try_from_utf8(long.as_bytes()),
        Err(Error::OutOfBounds)
    );
}

#[test]
fn from_utf8_validates_then_truncates() {
    let s = ArrayString::<23>::from_utf8(b"My String").unwrap();
    assert_eq!(s.as_str(), "My String");
    let invalid = [0u8, 159, 146, 150];
    assert_eq!(ArrayString::<23>::from_utf8(&invalid), Err(Utf8));
    let long = "0".repeat(300);
    let s = ArrayString::<23>::from_utf8(long.as_bytes()).unwrap();
    assert_eq!(s.as_str(), "0".repeat(23));
}

#[test]
fn try_from_utf16_decodes_surrogate_pair() {
    let music = [0xD834u16, 0xDD1E, 0x006d, 0x0075, 0x0073, 0x0069, 0x0063];
    let s = ArrayString::<23>::try_from_utf16(&music).unwrap();
    assert_eq!(s.as_str(), "\u{1D11E}music");
}

#[test]
fn try_from_utf16_rejects_unpaired_surrogate() {
    let invalid = [0xD834u16, 0xDD1E, 0x006d, 0x0075, 0xD800, 0x0069, 0x0063];
    assert_eq!(
        ArrayString::<23>::try_from_utf16(&invalid),
        Err(Error::Utf16)
    );
}

#[test]
fn try_from_utf16_reports_overflow() {
    let long = [0u16; 300];
    assert_eq!(
        ArrayString::<23>::try_from_utf16(&long),
        Err(Error::OutOfBounds)
    );
}

#[test]
fn from_utf16_truncates_but_still_validates() {
    let music = [0xD834u16, 0xDD1E, 0x006d, 0x0075, 0x0073, 0x0069, 0x0063];
    let s = ArrayString::<23>::from_utf16(&music).unwrap();
    assert_eq!(s.as_str(), "\u{1D11E}music");
    let invalid = [0xD834u16, 0xDD1E, 0x006d, 0x0075, 0xD800, 0x0069, 0x0063];
    assert_eq!(ArrayString::<23>::from_utf16(&invalid), Err(Utf16));
    let long = [0u16; 300];
    let s = ArrayString::<23>::from_utf16(&long).unwrap();
    assert_eq!(s.as_str(), "\0".repeat(23));
}

#[test]
fn from_utf16_lossy_substitutes_replacement() {
    let music = [0xD834u16, 0xDD1E, 0x006d, 0x0075, 0x0073, 0x0069, 0x0063];
    let s = ArrayString::<23>::from_utf16_lossy(&music);
    assert_eq!(s.as_str(), "\u{1D11E}music");
    let invalid = [0xD834u16, 0xDD1E, 0x006d, 0x0075, 0xD800, 0x0069, 0x0063];
    let s = ArrayString::<23>::from_utf16_lossy(&invalid);
    assert_eq!(s.as_str(), "\u{1D11E}mu\u{FFFD}ic");
    let long = [0u16; 300];
    let s = ArrayString::<23>::from_utf16_lossy(&long);
    assert_eq!(s.as_str(), "\0".repeat(23));
}

#[test]
fn utf8_round_trip_reproduces_buffer() {
    let a = ArrayString::<16>::try_from_str("round \u{1F914} trip").unwrap();
    let b = ArrayString::<16>::from_utf8(a.as_bytes()).unwrap();
    assert_eq!(a, b);
    assert_eq!(b.as_str(), "round \u{1F914} trip");
    let c = ArrayString::<16>::try_from_str(a.as_str()).unwrap();
    assert_eq!(a, c);
}

#[test]
fn parses_via_from_str() {
    let s = ArrayString::<8>::from_str("parse").unwrap();
    assert_eq!(s.as_str(), "parse");
    assert_eq!(ArrayString::<4>::from_str("parse"), Err(OutOfBounds));
}

#[test]
fn default_and_clone() {
    let d = ArrayString::<8>::default();
    assert!(d.is_empty());
    let s = ArrayString::<8>::try_from_str("copy me!").unwrap();
    let t = s.clone();
    assert_eq!(s, t);
    assert_eq!(t.as_str(), "copy me!");
}

#[test]
fn capacity_is_clipped_to_one_byte() {
    assert_eq!(ArrayString::<32>::capacity(), 32);
    assert_eq!(ArrayString::<255>::capacity(), 255);
    assert_eq!(ArrayString::<300>::capacity(), 255);
}
