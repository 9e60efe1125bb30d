//! The server-side machinery for `multipart/form-data` bodies: the boundary
//! scanner, the header reader, the field lifecycle controller and the text
//! folder, all driven by pushing raw byte chunks and polling.

use vstd::prelude::*;
use vstd::utf8::encode_utf8;
use crate::error::{Error, ErrorKind};
use crate::helpers::Async;
use crate::server::boundary::{BoundaryFinder, ScanPhase, body_chunk_post};
use crate::server::headers::{headers_from, header_block_ready, block_parses};
use crate::server::field::new_field;

pub mod boundary;
pub mod field;
pub mod headers;
pub mod text;

pub use field::Field;
pub use field::FieldData;
pub use headers::FieldHeaders;
pub use headers::ReadHeaders;
pub use text::FoldText;
pub use text::ReadTextField;
pub use text::TextField;
pub use text::read_text;

verus! {

broadcast use vstd::seq_lib::group_seq_lib_default, vstd::seq::group_seq_axioms;

/// Every character contributes at least one byte to a UTF-8 encoding.
proof fn lemma_encode_utf8_len(s: Seq<char>)
    ensures
        encode_utf8(s).len() >= s.len(),
    decreases s.len(),
{
    if s.len() > 0 {
        lemma_encode_utf8_len(s.drop_first());
    }
}

/// The entry point of server-side processing of one `multipart/form-data`
/// request body. It owns the boundary scanner and the header reader, and
/// exposes the two low-level operations: poll for the next field's headers,
/// and poll for the next chunk of the current field's body.
///
/// The inbound byte stream is supplied by pushing chunks with
/// [`Multipart::push_chunk`] and, at its end, [`Multipart::close`]; chunk
/// edges are arbitrary and carry no meaning.
pub struct Multipart {
    pub(crate) stream: BoundaryFinder,
    pub(crate) read_hdr: ReadHeaders,
    pub(crate) consumed: bool,
}

impl Multipart {
    /// The boundary scanner inside this parser.
    pub closed spec fn finder_spec(self) -> BoundaryFinder {
        self.stream
    }

    /// Whether the delimiter before the next field has been consumed but its
    /// headers not yet delivered.
    pub closed spec fn consumed_spec(self) -> bool {
        self.consumed
    }

    /// The header bytes accumulated for the field being started.
    pub closed spec fn read_hdr_spec(self) -> Seq<u8> {
        self.read_hdr.accum_bytes()
    }

    /// The parser's invariant.
    pub open spec fn wf(self) -> bool {
        &&& self.finder_spec().wf()
        &&& (self.consumed_spec() ==> self.finder_spec().phase_spec() == ScanPhase::Scanning
            || self.finder_spec().phase_spec() == ScanPhase::AtBoundary)
    }

    /// A parser for a body delimited by the given boundary token. The two
    /// leading dashes of the delimiter line are added here, so the caller
    /// passes the bare token from the request's content type.
    pub fn with_body(boundary: &str) -> (m: Multipart)
        requires
            boundary@.len() >= 1,
        ensures
            m.wf(),
            !m.consumed_spec(),
            m.finder_spec().delim_bytes() == seq![13u8, 10u8, 45u8, 45u8] + encode_utf8(
                boundary@,
            ),
            m.finder_spec().phase_spec() == ScanPhase::Scanning,
            !m.finder_spec().is_closed(),
            m.finder_spec().buf_bytes() == seq![13u8, 10u8],
            m.finder_spec().emitted_bytes().len() == 0,
            m.read_hdr_spec().len() == 0,
    {
        let mut b: Vec<u8> = Vec::new();
        b.push(45);
        b.push(45);
        b.extend_from_slice(boundary.as_bytes());
        proof {
            lemma_encode_utf8_len(boundary@);
            assert(b@ =~= seq![45u8, 45u8] + encode_utf8(boundary@));
        }
        let f = BoundaryFinder::new(b);
        proof {
            assert(seq![13u8, 10u8] + (seq![45u8, 45u8] + encode_utf8(boundary@)) =~= seq![
                13u8,
                10u8,
                45u8,
                45u8,
            ] + encode_utf8(boundary@));
        }
        Multipart { stream: f, read_hdr: ReadHeaders::default(), consumed: false }
    }

    /// Hand the parser the next chunk of the request body.
    pub fn push_chunk(&mut self, chunk: Vec<u8>)
        requires
            old(self).wf(),
            !old(self).finder_spec().is_closed(),
        ensures
            final(self).wf(),
            final(self).consumed_spec() == old(self).consumed_spec(),
            final(self).finder_spec().delim_bytes() == old(self).finder_spec().delim_bytes(),
            final(self).finder_spec().phase_spec() == old(self).finder_spec().phase_spec(),
            final(self).finder_spec().buf_bytes() == old(self).finder_spec().buf_bytes()
                + chunk@,
            final(self).finder_spec().emitted_bytes() == old(self).finder_spec().emitted_bytes(),
            final(self).read_hdr_spec() == old(self).read_hdr_spec(),
            !final(self).finder_spec().is_closed(),
    {
        self.stream.push_chunk(chunk);
    }

    /// Signal that the request body has ended: no more chunks will come.
    pub fn close(&mut self)
        requires
            old(self).wf(),
        ensures
            final(self).wf(),
            final(self).consumed_spec() == old(self).consumed_spec(),
            final(self).finder_spec().is_closed(),
            final(self).finder_spec().delim_bytes() == old(self).finder_spec().delim_bytes(),
            final(self).finder_spec().phase_spec() == old(self).finder_spec().phase_spec(),
            final(self).finder_spec().buf_bytes() == old(self).finder_spec().buf_bytes(),
            final(self).finder_spec().emitted_bytes() == old(self).finder_spec().emitted_bytes(),
            final(self).read_hdr_spec() == old(self).read_hdr_spec(),
    {
        self.stream.close();
    }

    /// Poll for the headers of the next field, discarding any remaining
    /// content of the current one.
    ///
    /// `Ready(Some(headers))` starts the next field, and the headers are
    /// exactly the parse of that field's header block — the bytes between
    /// the delimiter line and the first blank line; `Ready(None)` says the
    /// terminal marker has been reached and no more fields follow —
    /// permanently. `NotReady` asks for more input; once the buffered bytes
    /// hold the whole delimiter line and header block, an outcome is owed.
    /// Errors carry the boundary, header or limit kind that caused them.
    pub fn poll_field_head(&mut self) -> (r: Result<Async<Option<FieldHeaders>>, Error>)
        requires
            old(self).wf(),
        ensures
            final(self).wf(),
            final(self).finder_spec().delim_bytes() == old(self).finder_spec().delim_bytes(),
            final(self).finder_spec().is_closed() == old(self).finder_spec().is_closed(),
            match r {
                Ok(Async::Ready(Some(h))) => {
                    &&& exists|total: Seq<u8>, q: int| #[trigger] headers_from(h, total, q)
                    &&& (old(self).consumed_spec() ==> {
                        let a = old(self).read_hdr_spec() + old(self).finder_spec().buf_bytes();
                        exists|q: int|
                            #![trigger headers_from(h, a, q)]
                            headers_from(h, a, q) && final(self).finder_spec().buf_bytes()
                                == a.skip(q + 4)
                    })
                    &&& (!old(self).consumed_spec() ==> {
                        let f = old(self).finder_spec().fed_field();
                        let d = old(self).finder_spec().delim_bytes();
                        exists|p: int, q: int|
                            #![trigger headers_from(h, old(self).read_hdr_spec() + f.skip(p + d.len() + 2), q)]
                            {
                                &&& crate::search::is_first_occ(f, d, p)
                                &&& p + d.len() + 2 <= f.len()
                                &&& f[p + d.len()] == 13 && f[p + d.len() + 1] == 10
                                &&& headers_from(
                                    h,
                                    old(self).read_hdr_spec() + f.skip(p + d.len() + 2),
                                    q,
                                )
                                &&& final(self).finder_spec().buf_bytes() == (old(self).read_hdr_spec() + f.skip(p + d.len() + 2)).skip(q + 4)
                            }
                    })
                    &&& final(self).finder_spec().phase_spec() == ScanPhase::Scanning
                    &&& final(self).finder_spec().emitted_bytes().len() == 0
                    &&& !final(self).consumed_spec()
                },
                Ok(Async::Ready(None)) => final(self).finder_spec().phase_spec()
                    == ScanPhase::AtEnd && !final(self).consumed_spec() && !old(self).consumed_spec(),
                Ok(Async::NotReady) => !old(self).finder_spec().is_closed(),
                Err(e) => e.kind == ErrorKind::Boundary || e.kind == ErrorKind::Headers || e.kind
                    == ErrorKind::Limit,
            },
            !old(self).consumed_spec() && old(self).finder_spec().phase_spec()
                == ScanPhase::AtEnd ==> r == Result::<Async<Option<FieldHeaders>>, Error>::Ok(
                Async::Ready(None),
            ) && *final(self) == *old(self),
            old(self).consumed_spec() && (r matches Ok(p2) && p2 is NotReady) ==> final(self).consumed_spec() && final(self).read_hdr_spec() + final(self).finder_spec().buf_bytes() == old(self).read_hdr_spec() + old(self).finder_spec().buf_bytes(),
            !old(self).consumed_spec() && (r matches Ok(p2) && p2 is NotReady) && !final(self).consumed_spec() ==> final(self).finder_spec().fed_field() == old(self).finder_spec().fed_field() && final(self).read_hdr_spec() == old(self).read_hdr_spec(),
            !old(self).consumed_spec() && old(self).finder_spec().phase_spec()
                != ScanPhase::AtEnd ==> ((r matches Ok(p2) && p2 matches Async::Ready(o)
                && o is None) ==> {
                let f = old(self).finder_spec().fed_field();
                let d = old(self).finder_spec().delim_bytes();
                exists|p: int|
                    #![trigger crate::search::is_first_occ(f, d, p)]
                    crate::search::is_first_occ(f, d, p) && p + d.len() + 2 <= f.len() && f[p
                        + d.len()] == 45 && f[p + d.len() + 1] == 45
            }),
            old(self).consumed_spec() && old(self).finder_spec().phase_spec()
                == ScanPhase::Scanning ==> forall|q: int|
                #[trigger] header_block_ready(
                    old(self).read_hdr_spec(),
                    old(self).finder_spec().buf_bytes(),
                    old(self).finder_spec().delim_bytes(),
                    q,
                ) ==> {
                let a = old(self).read_hdr_spec() + old(self).finder_spec().buf_bytes();
                if block_parses(a, q) {
                    r matches Ok(Async::Ready(Some(_)))
                } else {
                    (r matches Err(e) && e.kind == ErrorKind::Headers)
                }
            },
            !old(self).consumed_spec() && old(self).finder_spec().phase_spec()
                != ScanPhase::AtEnd ==> forall|p: int, q: int|
                (crate::search::is_first_occ(
                    old(self).finder_spec().fed_field(),
                    old(self).finder_spec().delim_bytes(),
                    p,
                ) && p + old(self).finder_spec().delim_bytes().len() + 2 <= old(self).finder_spec().fed_field().len() && old(self).finder_spec().fed_field()[p + old(self).finder_spec().delim_bytes().len()] == 13 && old(self).finder_spec().fed_field()[
                    p + old(self).finder_spec().delim_bytes().len() + 1
                ] == 10 && #[trigger] header_block_ready(
                    old(self).read_hdr_spec(),
                    old(self).finder_spec().fed_field().skip(
                        p + old(self).finder_spec().delim_bytes().len() + 2,
                    ),
                    old(self).finder_spec().delim_bytes(),
                    q,
                )) ==> {
                    let a = old(self).read_hdr_spec() + old(self).finder_spec().fed_field().skip(
                        p + old(self).finder_spec().delim_bytes().len() + 2,
                    );
                    if block_parses(a, q) {
                        r matches Ok(Async::Ready(Some(_)))
                    } else {
                        (r matches Err(e2) && e2.kind == ErrorKind::Headers)
                    }
                },
    {
        let ghost f = old(self).finder_spec().fed_field();
        let ghost d = old(self).finder_spec().delim_bytes();
        let ghost acc0 = old(self).read_hdr_spec();
        if !self.consumed {
            let cr = self.stream.consume_boundary();
            proof {
                assert(crate::server::boundary::consume_boundary_post(
                    old(self).finder_spec(),
                    self.finder_spec(),
                    cr,
                ));
            }
            match cr {
                Ok(Async::Ready(true)) => {
                    self.consumed = true;
                },
                Ok(Async::Ready(false)) => {
                    proof {
                        if old(self).finder_spec().phase_spec() != ScanPhase::AtEnd {
                            lemma_no_crlf_line(*old(self), *self, cr, f, d, acc0);
                        }
                    }
                    return Ok(Async::Ready(None));
                },
                Ok(Async::NotReady) => {
                    proof {
                        if old(self).finder_spec().phase_spec() != ScanPhase::AtEnd {
                            lemma_no_crlf_line(*old(self), *self, cr, f, d, acc0);
                        }
                    }
                    return Ok(Async::NotReady);
                },
                Err(e) => {
                    proof {
                        if old(self).finder_spec().phase_spec() != ScanPhase::AtEnd {
                            lemma_no_crlf_line(*old(self), *self, cr, f, d, acc0);
                        }
                    }
                    return Err(e);
                },
            }
        }
        let ghost mid = self.finder_spec();
        let r = self.read_hdr.read_headers(&mut self.stream);
        proof {
            if !old(self).consumed_spec() {
                // the delimiter line was consumed just now: tie the header
                // reader's decision back to the entry state
                assert forall|p: int, q: int|
                    (crate::search::is_first_occ(f, d, p) && p + d.len() + 2 <= f.len() && f[p
                        + d.len()] == 13 && f[p + d.len() + 1] == 10
                        && #[trigger] header_block_ready(acc0, f.skip(p + d.len() + 2), d, q))
                    implies ({
                    let a = acc0 + f.skip(p + d.len() + 2);
                    if block_parses(a, q) {
                        r matches Ok(Async::Ready(Some(_)))
                    } else {
                        (r matches Err(e) && e.kind == ErrorKind::Headers)
                    }
                }) by {
                    crate::server::boundary::lemma_consume_outcome_determined(
                        old(self).finder_spec(),
                        mid,
                        Result::<Async<bool>, Error>::Ok(Async::Ready(true)),
                        p,
                    );
                    assert(mid.buf_bytes() == f.skip(p + d.len() + 2));
                    assert(header_block_ready(acc0, mid.buf_bytes(), d, q));
                }
            }
        }
        match r {
            Ok(Async::Ready(Some(h))) => {
                proof {
                    if !old(self).consumed_spec() {
                        lemma_anchor_after_consume(*old(self), mid, f, d, acc0, h, *self);
                    }
                }
                self.consumed = false;
                Ok(Async::Ready(Some(h)))
            },
            Ok(Async::Ready(None)) => {
                proof {
                    assert(false);
                }
                Ok(Async::Ready(None))
            },
            Ok(Async::NotReady) => Ok(Async::NotReady),
            Err(e) => Err(e),
        }
    }

    /// Poll for the next chunk of the current field's body, or `Ready(None)`
    /// once the field has been read to its boundary. The exact step relation
    /// is [`body_chunk_post`] over the scanner before and after.
    pub fn poll_field_body(&mut self) -> (r: Result<Async<Option<Vec<u8>>>, Error>)
        requires
            old(self).wf(),
        ensures
            final(self).wf(),
            final(self).consumed_spec() == old(self).consumed_spec(),
            body_chunk_post(old(self).finder_spec(), final(self).finder_spec(), r),
    {
        self.stream.body_chunk()
    }

    /// Wrap this parser as a stream of fields.
    pub fn into_stream(self) -> (s: MultipartStream)
        requires
            self.wf(),
        ensures
            s.wf(),
            s.multi_spec() == self,
            !s.in_flight_spec(),
            !s.waiting_spec(),
            !s.finished_spec(),
    {
        MultipartStream { multi: self, in_flight: false, waiting: false, finished: false }
    }
}

/// The request body as a stream of [`Field`]s, yielding at most one live
/// field at a time.
///
/// While a field's [`crate::server::field::FieldData`] handle is alive,
/// advancing the stream yields `NotReady` and records that a caller is
/// waiting; releasing the handle wakes that caller. A field handle that is
/// leaked instead of released therefore stalls the stream forever — a
/// documented caller obligation, not a recoverable condition.
pub struct MultipartStream {
    pub(crate) multi: Multipart,
    pub(crate) in_flight: bool,
    pub(crate) waiting: bool,
    pub(crate) finished: bool,
}

impl MultipartStream {
    /// The low-level parser inside this stream.
    pub closed spec fn multi_spec(self) -> Multipart {
        self.multi
    }

    /// Whether a field handle is outstanding.
    pub closed spec fn in_flight_spec(self) -> bool {
        self.in_flight
    }

    /// Whether an advance was refused while a field handle was outstanding,
    /// so the release of that handle must report a wake-up.
    pub closed spec fn waiting_spec(self) -> bool {
        self.waiting
    }

    /// Whether the stream has ended — by the terminal marker or by an error.
    pub closed spec fn finished_spec(self) -> bool {
        self.finished
    }

    /// The stream's invariant.
    pub open spec fn wf(self) -> bool {
        self.multi_spec().wf()
    }

    /// Advance to the next field.
    ///
    /// While the previous field's handle is alive this yields `NotReady` —
    /// never a second field — and records the caller as waiting; it
    /// advances the parser only when no handle is outstanding. The yielded
    /// field's headers are exactly the parse of its header block, and once
    /// the buffered bytes hold the whole delimiter line and header block an
    /// outcome is owed. Once the terminal marker is seen, or any error has
    /// surfaced, the stream permanently yields `Ready(None)` or stays
    /// ended.
    pub fn poll(&mut self) -> (r: Result<Async<Option<Field>>, Error>)
        requires
            old(self).wf(),
        ensures
            final(self).wf(),
            old(self).finished_spec() ==> r == Result::<Async<Option<Field>>, Error>::Ok(
                Async::Ready(None),
            ) && *final(self) == *old(self),
            !old(self).finished_spec() && old(self).in_flight_spec() ==> {
                &&& r == Result::<Async<Option<Field>>, Error>::Ok(Async::NotReady)
                &&& final(self).waiting_spec()
                &&& final(self).in_flight_spec()
                &&& !final(self).finished_spec()
                &&& final(self).multi_spec() == old(self).multi_spec()
            },
            !old(self).finished_spec() && !old(self).in_flight_spec() ==> match r {
                Ok(Async::Ready(Some(f))) => {
                    &&& exists|total: Seq<u8>, q: int| #[trigger] headers_from(
                        f.headers,
                        total,
                        q,
                    )
                    &&& (old(self).multi_spec().consumed_spec() ==> {
                        let a = old(self).multi_spec().read_hdr_spec() + old(self).multi_spec().finder_spec().buf_bytes();
                        exists|q: int|
                            #![trigger headers_from(f.headers, a, q)]
                            headers_from(f.headers, a, q) && final(self).multi_spec().finder_spec().buf_bytes() == a.skip(q + 4)
                    })
                    &&& (!old(self).multi_spec().consumed_spec() ==> {
                        let fd = old(self).multi_spec().finder_spec().fed_field();
                        let dl = old(self).multi_spec().finder_spec().delim_bytes();
                        exists|p: int, q: int|
                            #![trigger headers_from(f.headers, old(self).multi_spec().read_hdr_spec() + fd.skip(p + dl.len() + 2), q)]
                            {
                                &&& crate::search::is_first_occ(fd, dl, p)
                                &&& p + dl.len() + 2 <= fd.len()
                                &&& fd[p + dl.len()] == 13 && fd[p + dl.len() + 1] == 10
                                &&& headers_from(
                                    f.headers,
                                    old(self).multi_spec().read_hdr_spec() + fd.skip(
                                        p + dl.len() + 2,
                                    ),
                                    q,
                                )
                            }
                    })
                    &&& final(self).in_flight_spec()
                    &&& !final(self).finished_spec()
                },
                Ok(Async::Ready(None)) => final(self).finished_spec() && !old(self).multi_spec().consumed_spec(),
                Ok(Async::NotReady) => !final(self).in_flight_spec() && !final(self).finished_spec() && !old(self).multi_spec().finder_spec().is_closed(),
                Err(e) => final(self).finished_spec() && (e.kind == ErrorKind::Boundary || e.kind
                    == ErrorKind::Headers || e.kind == ErrorKind::Limit),
            },
            !old(self).finished_spec() && !old(self).in_flight_spec() && !old(self).multi_spec().consumed_spec() && old(self).multi_spec().finder_spec().phase_spec()
                == ScanPhase::AtEnd ==> r == Result::<Async<Option<Field>>, Error>::Ok(
                Async::Ready(None),
            ) && final(self).finished_spec() && final(self).multi_spec() == old(self).multi_spec(),
            !old(self).finished_spec() && !old(self).in_flight_spec() && !old(self).multi_spec().consumed_spec() && old(self).multi_spec().finder_spec().phase_spec()
                != ScanPhase::AtEnd ==> ((r matches Ok(p2) && p2 matches Async::Ready(o)
                && o is None) ==> exists|p: int|
                #![trigger crate::search::is_first_occ(old(self).multi_spec().finder_spec().fed_field(), old(self).multi_spec().finder_spec().delim_bytes(), p)]
                {
                    let fd = old(self).multi_spec().finder_spec().fed_field();
                    let dl = old(self).multi_spec().finder_spec().delim_bytes();
                    &&& crate::search::is_first_occ(fd, dl, p)
                    &&& p + dl.len() + 2 <= fd.len()
                    &&& fd[p + dl.len()] == 45 && fd[p + dl.len() + 1] == 45
                }),
            !old(self).finished_spec() && !old(self).in_flight_spec() && old(self).multi_spec().consumed_spec() && old(self).multi_spec().finder_spec().phase_spec()
                == ScanPhase::Scanning ==> forall|q: int|
                #[trigger] header_block_ready(
                    old(self).multi_spec().read_hdr_spec(),
                    old(self).multi_spec().finder_spec().buf_bytes(),
                    old(self).multi_spec().finder_spec().delim_bytes(),
                    q,
                ) ==> {
                let a = old(self).multi_spec().read_hdr_spec() + old(self).multi_spec().finder_spec().buf_bytes();
                if block_parses(a, q) {
                    r matches Ok(Async::Ready(Some(_)))
                } else {
                    (r matches Err(e2) && e2.kind == ErrorKind::Headers)
                }
            },
            !old(self).finished_spec() && !old(self).in_flight_spec() && !old(self).multi_spec().consumed_spec() && old(self).multi_spec().finder_spec().phase_spec()
                != ScanPhase::AtEnd ==> forall|p: int, q: int|
                (crate::search::is_first_occ(
                    old(self).multi_spec().finder_spec().fed_field(),
                    old(self).multi_spec().finder_spec().delim_bytes(),
                    p,
                ) && p + old(self).multi_spec().finder_spec().delim_bytes().len() + 2 <= old(self).multi_spec().finder_spec().fed_field().len() && old(self).multi_spec().finder_spec().fed_field()[p + old(self).multi_spec().finder_spec().delim_bytes().len()] == 13 && old(self).multi_spec().finder_spec().fed_field()[p + old(self).multi_spec().finder_spec().delim_bytes().len() + 1] == 10
                    && #[trigger] header_block_ready(
                    old(self).multi_spec().read_hdr_spec(),
                    old(self).multi_spec().finder_spec().fed_field().skip(
                        p + old(self).multi_spec().finder_spec().delim_bytes().len() + 2,
                    ),
                    old(self).multi_spec().finder_spec().delim_bytes(),
                    q,
                )) ==> {
                    let a = old(self).multi_spec().read_hdr_spec() + old(self).multi_spec().finder_spec().fed_field().skip(
                        p + old(self).multi_spec().finder_spec().delim_bytes().len() + 2,
                    );
                    if block_parses(a, q) {
                        r matches Ok(Async::Ready(Some(_)))
                    } else {
                        (r matches Err(e2) && e2.kind == ErrorKind::Headers)
                    }
                },
    {
        if self.finished {
            return Ok(Async::Ready(None));
        }
        if self.in_flight {
            // a field handle is still alive: it owns the byte cursor, so
            // suspend instead of aliasing it
            self.waiting = true;
            return Ok(Async::NotReady);
        }
        let r2 = self.multi.poll_field_head();
        match r2 {
            Ok(Async::Ready(Some(h))) => {
                self.in_flight = true;
                Ok(Async::Ready(Some(new_field(h))))
            },
            Ok(Async::Ready(None)) => {
                self.finished = true;
                Ok(Async::Ready(None))
            },
            Ok(Async::NotReady) => Ok(Async::NotReady),
            Err(e) => {
                // an error ends the stream for this high-level driver
                self.finished = true;
                Err(e)
            },
        }
    }

    /// Hand the stream the next chunk of the request body.
    pub fn push_chunk(&mut self, chunk: Vec<u8>)
        requires
            old(self).wf(),
            !old(self).multi_spec().finder_spec().is_closed(),
        ensures
            final(self).wf(),
            final(self).in_flight_spec() == old(self).in_flight_spec(),
            final(self).waiting_spec() == old(self).waiting_spec(),
            final(self).finished_spec() == old(self).finished_spec(),
            final(self).multi_spec().consumed_spec() == old(self).multi_spec().consumed_spec(),
            final(self).multi_spec().read_hdr_spec() == old(self).multi_spec().read_hdr_spec(),
            final(self).multi_spec().finder_spec().delim_bytes() == old(self).multi_spec().finder_spec().delim_bytes(),
            final(self).multi_spec().finder_spec().phase_spec() == old(self).multi_spec().finder_spec().phase_spec(),
            final(self).multi_spec().finder_spec().buf_bytes() == old(self).multi_spec().finder_spec().buf_bytes() + chunk@,
            final(self).multi_spec().finder_spec().emitted_bytes() == old(self).multi_spec().finder_spec().emitted_bytes(),
            !final(self).multi_spec().finder_spec().is_closed(),
    {
        self.multi.push_chunk(chunk);
    }

    /// Signal that the request body has ended.
    pub fn close(&mut self)
        requires
            old(self).wf(),
        ensures
            final(self).wf(),
            final(self).in_flight_spec() == old(self).in_flight_spec(),
            final(self).waiting_spec() == old(self).waiting_spec(),
            final(self).finished_spec() == old(self).finished_spec(),
            final(self).multi_spec().consumed_spec() == old(self).multi_spec().consumed_spec(),
            final(self).multi_spec().read_hdr_spec() == old(self).multi_spec().read_hdr_spec(),
            final(self).multi_spec().finder_spec().is_closed(),
            final(self).multi_spec().finder_spec().delim_bytes() == old(self).multi_spec().finder_spec().delim_bytes(),
            final(self).multi_spec().finder_spec().phase_spec() == old(self).multi_spec().finder_spec().phase_spec(),
            final(self).multi_spec().finder_spec().buf_bytes() == old(self).multi_spec().finder_spec().buf_bytes(),
            final(self).multi_spec().finder_spec().emitted_bytes() == old(self).multi_spec().finder_spec().emitted_bytes(),
    {
        self.multi.close();
    }
}


/// When consuming the boundary did not succeed into a next field, the entry
/// bytes cannot have held a complete delimiter line continuing with CRLF —
/// so no header-readiness condition built on one can hold either.
proof fn lemma_no_crlf_line(
    pre: Multipart,
    cur: Multipart,
    cr: Result<Async<bool>, Error>,
    f: Seq<u8>,
    d: Seq<u8>,
    acc0: Seq<u8>,
)
    requires
        crate::server::boundary::consume_boundary_post(pre.finder_spec(), cur.finder_spec(), cr),
        pre.finder_spec().phase_spec() != ScanPhase::AtEnd,
        f == pre.finder_spec().fed_field(),
        d == pre.finder_spec().delim_bytes(),
        cr != Result::<Async<bool>, Error>::Ok(Async::Ready(true)),
    ensures
        forall|p: int, q: int|
            (crate::search::is_first_occ(f, d, p) && p + d.len() + 2 <= f.len() && f[p + d.len()]
                == 13 && f[p + d.len() + 1] == 10 && #[trigger] header_block_ready(
                acc0,
                f.skip(p + d.len() + 2),
                d,
                q,
            )) ==> false,
        cr == Result::<Async<bool>, Error>::Ok(Async::Ready(false)) ==> exists|p: int|
            #![trigger crate::search::is_first_occ(f, d, p)]
            crate::search::is_first_occ(f, d, p) && p + d.len() + 2 <= f.len() && f[p + d.len()]
                == 45 && f[p + d.len() + 1] == 45,
{
    assert forall|p: int, q: int|
        (crate::search::is_first_occ(f, d, p) && p + d.len() + 2 <= f.len() && f[p + d.len()]
            == 13 && f[p + d.len() + 1] == 10 && #[trigger] header_block_ready(
            acc0,
            f.skip(p + d.len() + 2),
            d,
            q,
        )) implies false by {
        crate::server::boundary::lemma_consume_outcome_determined(
            pre.finder_spec(),
            cur.finder_spec(),
            cr,
            p,
        );
    }
}

/// After the delimiter line was consumed and the header reader succeeded,
/// the delivered headers tie back to the state before the boundary was
/// consumed: the block follows the delimiter line's CRLF in the field
/// bytes, and what remains buffered is exactly what follows the block.
proof fn lemma_anchor_after_consume(
    pre: Multipart,
    mid: crate::server::boundary::BoundaryFinder,
    f: Seq<u8>,
    d: Seq<u8>,
    acc0: Seq<u8>,
    h: FieldHeaders,
    cur: Multipart,
)
    requires
        crate::server::boundary::consume_boundary_post(
            pre.finder_spec(),
            mid,
            Result::<Async<bool>, Error>::Ok(Async::Ready(true)),
        ),
        f == pre.finder_spec().fed_field(),
        d == pre.finder_spec().delim_bytes(),
        exists|q: int|
            #![trigger headers_from(h, acc0 + mid.buf_bytes(), q)]
            headers_from(h, acc0 + mid.buf_bytes(), q) && cur.finder_spec().buf_bytes() == (acc0
                + mid.buf_bytes()).skip(q + 4),
    ensures
        exists|p: int, q: int|
            #![trigger headers_from(h, acc0 + f.skip(p + d.len() + 2), q)]
            {
                &&& crate::search::is_first_occ(f, d, p)
                &&& p + d.len() + 2 <= f.len()
                &&& f[p + d.len()] == 13 && f[p + d.len() + 1] == 10
                &&& headers_from(h, acc0 + f.skip(p + d.len() + 2), q)
                &&& cur.finder_spec().buf_bytes() == (acc0 + f.skip(p + d.len() + 2)).skip(q + 4)
            },
{
    let p2 = choose|p2: int|
        #![trigger crate::search::is_first_occ(f, d, p2)]
        {
            &&& crate::search::is_first_occ(f, d, p2)
            &&& p2 + d.len() + 2 <= f.len()
            &&& f[p2 + d.len()] == 13 && f[p2 + d.len() + 1] == 10
            &&& mid.phase_spec() == ScanPhase::Scanning
            &&& mid.emitted_bytes().len() == 0
            &&& mid.buf_bytes() == f.skip(p2 + d.len() + 2)
        };
    let q0 = choose|q: int|
        #![trigger headers_from(h, acc0 + mid.buf_bytes(), q)]
        headers_from(h, acc0 + mid.buf_bytes(), q) && cur.finder_spec().buf_bytes() == (acc0
            + mid.buf_bytes()).skip(q + 4);
    assert(acc0 + mid.buf_bytes() == acc0 + f.skip(p2 + d.len() + 2));
    assert(headers_from(h, acc0 + f.skip(p2 + d.len() + 2), q0));
    assert(cur.finder_spec().buf_bytes() == (acc0 + f.skip(p2 + d.len() + 2)).skip(q0 + 4));
}

} // verus!
