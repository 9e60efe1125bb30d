//! The scripted chunk source: serving, repeating and exhausting a script.

use multipart_async::helpers::Async;
use multipart_async::mock::{into_poll, into_poll_opt, MockStream};

#[test]
fn test_into_poll() {
    assert_eq!(
        Ok(Async::Ready(b"Hello, world!".to_vec())),
        into_poll("Hello, world!")
    );
}

#[test]
fn test_empty_mock() {
    let mut stream = MockStream::new(vec![]);
    assert_eq!(stream.poll_next(), Ok(Async::Ready(None)));
}

#[test]
fn test_extra_poll() {
    let mut stream = MockStream::new(vec![]);
    assert_eq!(stream.poll_next(), Ok(Async::Ready(None)));
    assert_eq!(stream.poll_next(), Ok(Async::Ready(None)));
}

#[test]
fn test_yield_once() {
    let mut stream = MockStream::new(vec![(into_poll("Hello, world!"), 0)]);
    assert_eq!(stream.poll_next(), into_poll_opt("Hello, world!"));
    assert_eq!(stream.poll_next(), Ok(Async::Ready(None)));
}

#[test]
fn test_repeat_once() {
    let mut stream = MockStream::new(vec![(into_poll("Hello, world!"), 1)]);
    assert_eq!(stream.poll_next(), into_poll_opt("Hello, world!"));
    assert_eq!(stream.poll_next(), Ok(Async::Ready(Some(b"Hello, world!".to_vec()))));
    assert_eq!(stream.poll_next(), Ok(Async::Ready(None)));
}

#[test]
fn test_two_items() {
    let mut stream = MockStream::new(vec![
        (into_poll("Hello, world!"), 0),
        (into_poll("Hello, also!"), 0),
    ]);
    assert_eq!(stream.poll_next(), into_poll_opt("Hello, world!"));
    assert_eq!(stream.poll_next(), into_poll_opt("Hello, also!"));
    assert_eq!(stream.poll_next(), Ok(Async::Ready(None)));
}

#[test]
fn test_two_items_one_repeat() {
    let mut stream = MockStream::new(vec![
        (into_poll("Hello, world!"), 1),
        (into_poll("Hello, also!"), 0),
    ]);
    assert_eq!(stream.poll_next(), into_poll_opt("Hello, world!"));
    assert_eq!(stream.poll_next(), into_poll_opt("Hello, world!"));
    assert_eq!(stream.poll_next(), into_poll_opt("Hello, also!"));
    assert_eq!(stream.poll_next(), Ok(Async::Ready(None)));
}
