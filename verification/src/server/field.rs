//! A single field of a multipart body: its headers paired with the handle
//! that produces its body chunks. At most one live handle exists per
//! request, so only one of the stream and the handle ever touches the
//! shared byte cursor.

use vstd::prelude::*;
use crate::error::Error;
use crate::helpers::Async;
use crate::server::MultipartStream;
use crate::server::boundary::body_chunk_post;
use crate::server::headers::FieldHeaders;
use crate::server::text::{ReadTextField, DEFAULT_LIMIT};

verus! {

/// One field of a multipart body: its parsed headers, and the handle that
/// yields its body chunks.
#[derive(Debug, PartialEq, Eq)]
pub struct Field {
    /// The headers of this field: name, optional filename and content type.
    pub headers: FieldHeaders,
    /// The producer of this field's body chunks.
    pub data: FieldData,
}

/// The exclusive handle to the current field's body.
///
/// Only one exists per stream at any time, and it cannot be duplicated:
/// while it is alive the parent [`MultipartStream`] refuses to advance.
/// When the field has been read — or is to be abandoned — the handle must
/// be given back with [`FieldData::release`]; the unread remainder of the
/// field is then discarded when the next field's headers are read. Leaking
/// the handle stalls the parent stream forever.
#[derive(Debug, PartialEq, Eq)]
pub struct FieldData {
    _seal: (),
}

/// Pair freshly read headers with the body handle of the field now in
/// flight.
pub(crate) fn new_field(headers: FieldHeaders) -> (f: Field)
    ensures
        f.headers == headers,
{
    Field { headers, data: FieldData { _seal: () } }
}

impl Field {
    /// Begin reading this field's body as text, under the default byte
    /// bound. The body must be UTF-8; [`FieldHeaders::is_text`] tells
    /// whether the field declared itself as text.
    pub fn read_text(self) -> (r: ReadTextField)
        ensures
            r.wf(),
            r.is_live(),
            r.headers_spec() == self.headers,
            r.fold_spec().text_bytes().len() == 0,
            r.fold_spec().held_bytes().len() == 0,
            r.fold_spec().limit_spec() == DEFAULT_LIMIT as int,
    {
        crate::server::text::read_text(self.headers, self.data)
    }
}

impl FieldData {
    /// Begin reading this field's body as text, under the default byte
    /// bound, keeping the given headers alongside the text.
    pub fn read_text(self, headers: FieldHeaders) -> (r: ReadTextField)
        ensures
            r.wf(),
            r.is_live(),
            r.headers_spec() == headers,
            r.fold_spec().text_bytes().len() == 0,
            r.fold_spec().held_bytes().len() == 0,
            r.fold_spec().limit_spec() == DEFAULT_LIMIT as int,
    {
        crate::server::text::read_text(headers, self)
    }

    /// Poll for the next chunk of this field's body through the parent
    /// stream, or `Ready(None)` once the body has been read to the
    /// boundary. The exact step relation is [`body_chunk_post`] over the
    /// stream's scanner; a stream with no field in flight is left untouched.
    pub fn poll(&self, ms: &mut MultipartStream) -> (r: Result<Async<Option<Vec<u8>>>, Error>)
        requires
            old(ms).wf(),
        ensures
            final(ms).wf(),
            final(ms).in_flight_spec() == old(ms).in_flight_spec(),
            final(ms).waiting_spec() == old(ms).waiting_spec(),
            final(ms).finished_spec() == old(ms).finished_spec(),
            old(ms).in_flight_spec() ==> body_chunk_post(
                old(ms).multi_spec().finder_spec(),
                final(ms).multi_spec().finder_spec(),
                r,
            ),
            !old(ms).in_flight_spec() ==> r == Result::<Async<Option<Vec<u8>>>, Error>::Ok(
                Async::Ready(None),
            ) && *final(ms) == *old(ms),
    {
        if !ms.in_flight {
            return Ok(Async::Ready(None));
        }
        ms.multi.poll_field_body()
    }

    /// Give the handle back to the parent stream, ending this field's
    /// exclusive access; any unread remainder of the field will be
    /// discarded when the next field's headers are read. Returns whether a
    /// suspended caller of [`MultipartStream::poll`] is to be woken.
    pub fn release(self, ms: &mut MultipartStream) -> (woke: bool)
        requires
            old(ms).wf(),
        ensures
            final(ms).wf(),
            !final(ms).in_flight_spec(),
            !final(ms).waiting_spec(),
            woke == old(ms).waiting_spec(),
            final(ms).finished_spec() == old(ms).finished_spec(),
            final(ms).multi_spec() == old(ms).multi_spec(),
    {
        ms.in_flight = false;
        let woke = ms.waiting;
        ms.waiting = false;
        woke
    }
}

} // verus!
