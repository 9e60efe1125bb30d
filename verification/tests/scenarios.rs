//! Whole-request scenarios: driving the field stream over complete bodies,
//! under different chunk cuts, and through its error paths.

use multipart_async::error::ErrorKind;
use multipart_async::helpers::Async;
use multipart_async::server::{Field, Multipart, MultipartStream, TextField};

/// Feed a whole body, closed, in one chunk, and hand back the field stream.
fn stream_of(boundary: &str, body: &[u8]) -> MultipartStream {
    let mut multi = Multipart::with_body(boundary);
    multi.push_chunk(body.to_vec());
    multi.close();
    multi.into_stream()
}

/// Pull the next field out of a stream that must have one ready.
fn next_field(ms: &mut MultipartStream) -> Field {
    match ms.poll() {
        Ok(Async::Ready(Some(field))) => field,
        other => panic!("expected a field, got {:?}", other.map(|_| ())),
    }
}

/// Read the current field fully as text.
fn field_text(field: Field, ms: &mut MultipartStream) -> TextField {
    let mut reader = field.read_text();
    match reader.poll(ms) {
        Ok(Async::Ready(tf)) => tf,
        other => panic!("expected text, got {:?}", other.map(|_| ())),
    }
}

#[test]
fn end_to_end_single_field() {
    let body = b"--B\r\nContent-Disposition: form-data; name=\"a\"\r\n\r\nhello\r\n--B--\r\n";
    let mut ms = stream_of("B", body);
    let field = next_field(&mut ms);
    assert_eq!(field.headers.name, "a");
    assert!(field.headers.is_text());
    let tf = field_text(field, &mut ms);
    assert_eq!(tf.text, "hello");
    assert_eq!(ms.poll(), Ok(Async::Ready(None)));
}

#[test]
fn two_fields_in_order() {
    let body = b"--B\r\nContent-Disposition: form-data; name=\"a\"\r\n\r\nva\r\n--B\r\nContent-Disposition: form-data; name=\"b\"\r\n\r\nvb\r\n--B--\r\n";
    let mut ms = stream_of("B", body);
    let first = next_field(&mut ms);
    assert_eq!(first.headers.name, "a");
    let tf = field_text(first, &mut ms);
    assert_eq!(tf.text, "va");
    let second = next_field(&mut ms);
    assert_eq!(second.headers.name, "b");
    let tf = field_text(second, &mut ms);
    assert_eq!(tf.text, "vb");
    assert_eq!(ms.poll(), Ok(Async::Ready(None)));
}

#[test]
fn two_fields_regardless_of_chunking() {
    let body: &[u8] = b"--B\r\nContent-Disposition: form-data; name=\"a\"\r\n\r\nva\r\n--B\r\nContent-Disposition: form-data; name=\"b\"\r\n\r\nvb\r\n--B--\r\n";
    // cut the body at every single offset in turn
    for cut in 0..body.len() {
        let mut multi = Multipart::with_body("B");
        multi.push_chunk(body[..cut].to_vec());
        multi.push_chunk(body[cut..].to_vec());
        multi.close();
        let mut ms = multi.into_stream();
        let first = next_field(&mut ms);
        assert_eq!(first.headers.name, "a");
        let tf = field_text(first, &mut ms);
        assert_eq!(tf.text, "va");
        let second = next_field(&mut ms);
        assert_eq!(second.headers.name, "b");
        let tf = field_text(second, &mut ms);
        assert_eq!(tf.text, "vb");
        assert_eq!(ms.poll(), Ok(Async::Ready(None)));
    }
}

#[test]
fn byte_by_byte_chunking_matches_single_chunk() {
    let body: &[u8] = b"--B\r\nContent-Disposition: form-data; name=\"a\"\r\n\r\nhello there\r\n--B--\r\n";
    let mut multi = Multipart::with_body("B");
    for b in body {
        multi.push_chunk(vec![*b]);
    }
    multi.close();
    let mut ms = multi.into_stream();
    let field = next_field(&mut ms);
    assert_eq!(field.headers.name, "a");
    let tf = field_text(field, &mut ms);
    assert_eq!(tf.text, "hello there");
    assert_eq!(ms.poll(), Ok(Async::Ready(None)));
}

#[test]
fn empty_field_body() {
    let body = b"--B\r\nContent-Disposition: form-data; name=\"a\"\r\n\r\n\r\n--B--\r\n";
    let mut ms = stream_of("B", body);
    let field = next_field(&mut ms);
    let tf = field_text(field, &mut ms);
    assert_eq!(tf.text, "");
    assert_eq!(ms.poll(), Ok(Async::Ready(None)));
}

#[test]
fn repeated_field_names_are_allowed() {
    let body = b"--B\r\nContent-Disposition: form-data; name=\"a\"\r\n\r\none\r\n--B\r\nContent-Disposition: form-data; name=\"a\"\r\n\r\ntwo\r\n--B--\r\n";
    let mut ms = stream_of("B", body);
    let first = next_field(&mut ms);
    assert_eq!(first.headers.name, "a");
    assert_eq!(field_text(first, &mut ms).text, "one");
    let second = next_field(&mut ms);
    assert_eq!(second.headers.name, "a");
    assert_eq!(field_text(second, &mut ms).text, "two");
}

#[test]
fn exclusive_access_while_field_in_flight() {
    let body = b"--B\r\nContent-Disposition: form-data; name=\"a\"\r\n\r\nva\r\n--B\r\nContent-Disposition: form-data; name=\"b\"\r\n\r\nvb\r\n--B--\r\n";
    let mut ms = stream_of("B", body);
    let field = next_field(&mut ms);
    // while the field handle is alive, the stream must not advance
    assert_eq!(ms.poll(), Ok(Async::NotReady));
    assert_eq!(ms.poll(), Ok(Async::NotReady));
    // releasing the handle wakes the waiter; the unread body is discarded
    let woke = field.data.release(&mut ms);
    assert!(woke);
    let second = next_field(&mut ms);
    assert_eq!(second.headers.name, "b");
    assert_eq!(field_text(second, &mut ms).text, "vb");
}

#[test]
fn abandoned_field_without_waiter_reports_no_wake() {
    let body = b"--B\r\nContent-Disposition: form-data; name=\"a\"\r\n\r\nva\r\n--B--\r\n";
    let mut ms = stream_of("B", body);
    let field = next_field(&mut ms);
    assert!(!field.data.release(&mut ms));
    assert_eq!(ms.poll(), Ok(Async::Ready(None)));
}

#[test]
fn not_ready_until_input_arrives() {
    let multi = Multipart::with_body("B");
    let mut ms = multi.into_stream();
    assert_eq!(ms.poll(), Ok(Async::NotReady));
    ms.push_chunk(b"--B\r\nContent-Disposition: form-data; name=\"a\"\r\n\r\nhi\r\n--B--\r\n".to_vec());
    ms.close();
    let field = next_field(&mut ms);
    assert_eq!(field_text(field, &mut ms).text, "hi");
}

#[test]
fn malformed_boundary_line_is_a_boundary_error() {
    let body = b"--Bxx\r\nContent-Disposition: form-data; name=\"a\"\r\n\r\nhi\r\n--B--\r\n";
    let mut ms = stream_of("B", body);
    match ms.poll() {
        Err(e) => assert_eq!(e.kind(), ErrorKind::Boundary),
        other => panic!("expected a boundary error, got {:?}", other.map(|_| ())),
    }
    // an error ends the stream for the high-level driver
    assert_eq!(ms.poll(), Ok(Async::Ready(None)));
}

#[test]
fn missing_terminal_marker_is_a_boundary_error() {
    let body = b"--B\r\nContent-Disposition: form-data; name=\"a\"\r\n\r\nhello";
    let mut ms = stream_of("B", body);
    let field = next_field(&mut ms);
    let mut reader = field.read_text();
    match reader.poll(&mut ms) {
        Err(e) => assert_eq!(e.kind(), ErrorKind::Boundary),
        other => panic!("expected a boundary error, got {:?}", other.map(|_| ())),
    }
}

#[test]
fn header_line_without_colon_is_a_header_error() {
    let body = b"--B\r\nNonsense\r\n\r\nhello\r\n--B--\r\n";
    let mut ms = stream_of("B", body);
    match ms.poll() {
        Err(e) => assert_eq!(e.kind(), ErrorKind::Headers),
        other => panic!("expected a header error, got {:?}", other.map(|_| ())),
    }
}

#[test]
fn missing_content_disposition_is_a_header_error() {
    let body = b"--B\r\nContent-Type: text/plain\r\n\r\nhello\r\n--B--\r\n";
    let mut ms = stream_of("B", body);
    match ms.poll() {
        Err(e) => assert_eq!(e.kind(), ErrorKind::Headers),
        other => panic!("expected a header error, got {:?}", other.map(|_| ())),
    }
}

#[test]
fn oversized_header_block_is_a_limit_error() {
    let mut body = b"--B\r\n".to_vec();
    body.extend(std::iter::repeat(b'a').take(20000));
    let mut ms = stream_of("B", &body);
    match ms.poll() {
        Err(e) => assert_eq!(e.kind(), ErrorKind::Limit),
        other => panic!("expected a limit error, got {:?}", other.map(|_| ())),
    }
}

#[test]
fn low_level_field_polling() {
    let body = b"--B\r\nContent-Disposition: form-data; name=\"a\"\r\n\r\nhello\r\n--B--\r\n";
    let mut multi = Multipart::with_body("B");
    multi.push_chunk(body.to_vec());
    multi.close();
    let headers = match multi.poll_field_head() {
        Ok(Async::Ready(Some(h))) => h,
        other => panic!("expected headers, got {:?}", other.map(|_| ())),
    };
    assert_eq!(headers.name, "a");
    let chunk = match multi.poll_field_body() {
        Ok(Async::Ready(Some(c))) => c,
        other => panic!("expected a body chunk, got {:?}", other.map(|_| ())),
    };
    assert_eq!(chunk, b"hello".to_vec());
    assert_eq!(multi.poll_field_body(), Ok(Async::Ready(None)));
    assert_eq!(multi.poll_field_head(), Ok(Async::Ready(None)));
}
