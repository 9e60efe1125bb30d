//! The UTF-8 text folder: round trips under arbitrary chunk cuts, the byte
//! bound, and rejection of malformed or truncated sequences.

use multipart_async::error::ErrorKind;
use multipart_async::helpers::Async;
use multipart_async::server::{Field, FoldText, Multipart, MultipartStream};

fn stream_of(boundary: &str, body: &[u8]) -> MultipartStream {
    let mut multi = Multipart::with_body(boundary);
    multi.push_chunk(body.to_vec());
    multi.close();
    multi.into_stream()
}

fn next_field(ms: &mut MultipartStream) -> Field {
    match ms.poll() {
        Ok(Async::Ready(Some(field))) => field,
        other => panic!("expected a field, got {:?}", other.map(|_| ())),
    }
}

#[test]
fn fold_round_trip_at_every_split() {
    // three-byte and two-byte sequences to cut through: "héllo✓"
    let text = "h\u{e9}llo\u{2713}";
    let bytes = text.as_bytes();
    for cut in 0..=bytes.len() {
        let mut fold = FoldText::new();
        fold.fold_chunk(bytes[..cut].to_vec()).unwrap();
        fold.fold_chunk(bytes[cut..].to_vec()).unwrap();
        assert_eq!(fold.take_string().unwrap(), text);
    }
}

#[test]
fn fold_ascii_one_byte_at_a_time() {
    let text = "plain ascii text";
    let mut fold = FoldText::new();
    for b in text.as_bytes() {
        fold.fold_chunk(vec![*b]).unwrap();
    }
    assert_eq!(fold.take_string().unwrap(), text);
}

#[test]
fn limit_exceeded_by_one_byte_fails() {
    let mut fold = FoldText::new().set_limit(4);
    let err = fold.fold_chunk(b"hello".to_vec()).unwrap_err();
    assert_eq!(err.kind(), ErrorKind::Limit);
    // the failing chunk left nothing behind
    assert_eq!(fold.take_string().unwrap(), "");
}

#[test]
fn limit_exactly_met_succeeds() {
    let mut fold = FoldText::new().set_limit(5);
    fold.fold_chunk(b"hello".to_vec()).unwrap();
    assert_eq!(fold.take_string().unwrap(), "hello");
}

#[test]
fn truncated_sequence_at_end_fails() {
    let mut fold = FoldText::new();
    // the first two bytes of a three-byte sequence, then nothing
    fold.fold_chunk(vec![b'h', 0xe2, 0x82]).unwrap();
    let err = fold.take_string().unwrap_err();
    assert_eq!(err.kind(), ErrorKind::Utf8);
}

#[test]
fn invalid_sequence_fails_outright() {
    let mut fold = FoldText::new();
    let err = fold.fold_chunk(vec![b'h', 0xff, b'i']).unwrap_err();
    assert_eq!(err.kind(), ErrorKind::Utf8);
}

#[test]
fn chunk_too_small_to_complete_sequence_fails() {
    let mut fold = FoldText::new();
    // lead byte of a four-byte sequence
    fold.fold_chunk(vec![0xf0]).unwrap();
    // a one-byte chunk cannot finish it
    let err = fold.fold_chunk(vec![0x9f]).unwrap_err();
    assert_eq!(err.kind(), ErrorKind::Utf8);
}

#[test]
fn overlong_encoding_is_rejected() {
    let mut fold = FoldText::new();
    // 0xc0 0xaf is an overlong encoding of '/'
    let err = fold.fold_chunk(vec![0xc0, 0xaf]).unwrap_err();
    assert_eq!(err.kind(), ErrorKind::Utf8);
}

#[test]
fn surrogate_encoding_is_rejected() {
    let mut fold = FoldText::new();
    // 0xed 0xa0 0x80 encodes a surrogate
    let err = fold.fold_chunk(vec![0xed, 0xa0, 0x80]).unwrap_err();
    assert_eq!(err.kind(), ErrorKind::Utf8);
}

#[test]
fn field_text_split_inside_a_sequence() {
    let head: &[u8] = b"--B\r\nContent-Disposition: form-data; name=\"a\"\r\n\r\nh\xc3";
    let tail: &[u8] = b"\xa9llo\r\n--B--\r\n";
    let mut multi = Multipart::with_body("B");
    multi.push_chunk(head.to_vec());
    let mut ms = multi.into_stream();
    let field = next_field(&mut ms);
    let mut reader = field.read_text();
    // the held-back half sequence cannot complete until more input arrives
    assert!(matches!(reader.poll(&mut ms), Ok(Async::NotReady)));
    ms.push_chunk(tail.to_vec());
    ms.close();
    let tf = match reader.poll(&mut ms) {
        Ok(Async::Ready(tf)) => tf,
        other => panic!("expected text, got {:?}", other.map(|_| ())),
    };
    assert_eq!(tf.text, "h\u{e9}llo");
    assert_eq!(ms.poll(), Ok(Async::Ready(None)));
}

#[test]
fn field_body_ending_mid_sequence_fails() {
    let body: &[u8] = b"--B\r\nContent-Disposition: form-data; name=\"a\"\r\n\r\nh\xe2\x82\r\n--B--\r\n";
    let mut ms = stream_of("B", body);
    let field = next_field(&mut ms);
    let mut reader = field.read_text();
    let err = match reader.poll(&mut ms) {
        Err(e) => e,
        other => panic!("expected an error, got {:?}", other.map(|_| ())),
    };
    assert_eq!(err.kind(), ErrorKind::Utf8);
}

#[test]
fn field_text_over_limit_fails() {
    let body = b"--B\r\nContent-Disposition: form-data; name=\"a\"\r\n\r\nhello\r\n--B--\r\n";
    let mut ms = stream_of("B", body);
    let field = next_field(&mut ms);
    let mut reader = field.read_text().set_limit(4);
    let err = match reader.poll(&mut ms) {
        Err(e) => e,
        other => panic!("expected an error, got {:?}", other.map(|_| ())),
    };
    assert_eq!(err.kind(), ErrorKind::Limit);
}

#[test]
fn ref_text_shows_progress() {
    let mut fold = FoldText::new();
    fold.fold_chunk(b"par".to_vec()).unwrap();
    assert_eq!(fold.ref_text(), "par");
    fold.fold_chunk(b"tial".to_vec()).unwrap();
    assert_eq!(fold.ref_text(), "partial");
}
