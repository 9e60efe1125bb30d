//! The small shared utilities: byte search, byte rendering, the take-and-
//! reset helper, and the error constructors.

use multipart_async::error::{Error, ErrorKind, StringError};
use multipart_async::helpers::{not_ready, ready, replace_default, show_bytes, Async};
use multipart_async::search::{find_first, longest_overlap};

#[test]
fn find_first_reports_the_first_occurrence() {
    let hay = b"xxabxabx".to_vec();
    let needle = b"ab".to_vec();
    assert_eq!(find_first(&hay, &needle), Some(2));
    assert_eq!(find_first(&hay, &b"zz".to_vec()), None);
    assert_eq!(find_first(&hay, &b"xxabxabx".to_vec()), Some(0));
}

#[test]
fn longest_overlap_measures_the_held_back_tail() {
    // the tail "ab" of the haystack could begin the needle "abc"
    assert_eq!(longest_overlap(&b"xxab".to_vec(), &b"abc".to_vec()), 2);
    assert_eq!(longest_overlap(&b"xxx".to_vec(), &b"abc".to_vec()), 0);
    // a full occurrence does not count: only a proper prefix of the needle
    assert_eq!(longest_overlap(&b"aa".to_vec(), &b"aab".to_vec()), 2);
}

#[test]
fn show_bytes_renders_printable_and_escaped() {
    let r = show_bytes(&vec![b'A', 0xff, b' ', 0x0a]);
    assert_eq!(r, "A\\xFF \\x0A");
}

#[test]
fn replace_default_takes_and_resets() {
    let mut v = vec![1u8, 2, 3];
    let taken = replace_default(&mut v);
    assert_eq!(taken, vec![1, 2, 3]);
    assert!(v.is_empty());
}

#[test]
fn poll_constructors() {
    assert_eq!(ready::<u8, Error>(7), Ok(Async::Ready(7)));
    assert_eq!(not_ready::<u8, Error>(), Ok(Async::NotReady));
}

#[test]
fn error_constructors_carry_their_kind() {
    assert_eq!(Error::from_str("boom").kind(), ErrorKind::Transport);
    assert_eq!(Error::from_string("boom".to_string()).kind(), ErrorKind::Transport);
    assert_eq!(Error::from_utf8("bad bytes").kind(), ErrorKind::Utf8);
    assert_eq!(Error::new(ErrorKind::Limit, "too big").kind(), ErrorKind::Limit);
    assert_eq!(Error::new(ErrorKind::Limit, "too big").message().as_str(), "too big");
}

#[test]
fn string_error_round_trip() {
    let e = StringError::from_str("oops");
    assert_eq!(e.message().as_str(), "oops");
    assert_eq!(StringError::from_string("x".to_string()).into_string(), "x");
}
