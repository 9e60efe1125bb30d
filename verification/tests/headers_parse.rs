//! The header-block parser: names, filenames, content types, folded lines
//! and the malformed blocks it must refuse.

use multipart_async::error::ErrorKind;
use multipart_async::server::headers::parse_header_block;

#[test]
fn plain_text_field_headers() {
    let block = b"Content-Disposition: form-data; name=\"a\"".to_vec();
    let h = parse_header_block(&block).unwrap();
    assert_eq!(h.name, "a");
    assert_eq!(h.filename, None);
    assert_eq!(h.content_type, None);
    assert!(h.other.is_empty());
    assert!(h.is_text());
}

#[test]
fn file_field_headers() {
    let block = b"Content-Disposition: form-data; name=\"up\"; filename=\"f.bin\"\r\nContent-Type: application/octet-stream".to_vec();
    let h = parse_header_block(&block).unwrap();
    assert_eq!(h.name, "up");
    assert_eq!(h.filename.as_deref(), Some("f.bin"));
    assert_eq!(h.content_type.as_deref(), Some("application/octet-stream"));
    assert!(!h.is_text());
}

#[test]
fn text_content_type_counts_as_text() {
    let block = b"Content-Disposition: form-data; name=\"a\"\r\nContent-Type: text/plain".to_vec();
    let h = parse_header_block(&block).unwrap();
    assert_eq!(h.content_type.as_deref(), Some("text/plain"));
    assert!(h.is_text());
}

#[test]
fn text_prefix_alone_is_not_the_text_major_type() {
    let block = b"Content-Disposition: form-data; name=\"a\"\r\nContent-Type: texture/x-foo".to_vec();
    let h = parse_header_block(&block).unwrap();
    assert!(!h.is_text());
    let block = b"Content-Disposition: form-data; name=\"a\"\r\nContent-Type: text".to_vec();
    let h = parse_header_block(&block).unwrap();
    assert!(h.is_text());
}

#[test]
fn keys_are_case_insensitive() {
    let block = b"CONTENT-DISPOSITION: Form-Data; NAME=\"a\"".to_vec();
    let h = parse_header_block(&block).unwrap();
    assert_eq!(h.name, "a");
}

#[test]
fn unquoted_parameter_value() {
    let block = b"Content-Disposition: form-data; name=bare".to_vec();
    let h = parse_header_block(&block).unwrap();
    assert_eq!(h.name, "bare");
}

#[test]
fn other_headers_kept_verbatim_in_order() {
    let block = b"X-First: one\r\nContent-Disposition: form-data; name=\"a\"\r\nX-Second: two".to_vec();
    let h = parse_header_block(&block).unwrap();
    assert_eq!(h.other, vec!["X-First: one".to_string(), "X-Second: two".to_string()]);
}

#[test]
fn folded_header_line_is_one_logical_line() {
    let block = b"Content-Disposition: form-data; name=\"a\"\r\nX-Extra: one\r\n two".to_vec();
    let h = parse_header_block(&block).unwrap();
    assert_eq!(h.other, vec!["X-Extra: one two".to_string()]);
}

#[test]
fn missing_name_parameter_is_refused() {
    let block = b"Content-Disposition: form-data; filename=\"f\"".to_vec();
    let e = parse_header_block(&block).unwrap_err();
    assert_eq!(e.kind(), ErrorKind::Headers);
}

#[test]
fn wrong_disposition_type_is_refused() {
    let block = b"Content-Disposition: attachment; name=\"a\"".to_vec();
    let e = parse_header_block(&block).unwrap_err();
    assert_eq!(e.kind(), ErrorKind::Headers);
}

#[test]
fn repeated_disposition_line_is_refused() {
    let block = b"Content-Disposition: form-data; name=\"a\"\r\nContent-Disposition: form-data; name=\"b\"".to_vec();
    let e = parse_header_block(&block).unwrap_err();
    assert_eq!(e.kind(), ErrorKind::Headers);
}

#[test]
fn empty_block_is_refused() {
    let block = Vec::new();
    let e = parse_header_block(&block).unwrap_err();
    assert_eq!(e.kind(), ErrorKind::Headers);
}
