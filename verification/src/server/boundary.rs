//! The boundary scanner: wraps the inbound chunk bytes and yields the bytes
//! of the current field's body, truncated exactly at the first byte of the
//! boundary delimiter — wherever the chunk edges happen to fall — together
//! with an operation that consumes the delimiter itself and reports whether
//! more fields follow.

use vstd::prelude::*;
use crate::error::{Error, ErrorKind};
use crate::helpers::Async;
use crate::search::{occurs_at, is_partial_suffix, mismatch_within, is_first_occ, find_first,
    longest_overlap, lemma_overlap_mismatch, lemma_first_occurrence_unique,
    lemma_is_first_occ_unique};

verus! {

broadcast use vstd::seq_lib::group_seq_lib_default, vstd::seq::group_seq_axioms;

/// Where the scanner stands relative to the delimiter.
#[derive(Debug, Clone, Copy, PartialEq, Eq, Structural)]
pub enum ScanPhase {
    /// Reading the current field's body, watching for the delimiter.
    Scanning,
    /// The delimiter has been reached and sits at the front of the buffer.
    AtBoundary,
    /// The terminal `--boundary--` marker has been seen: no more fields.
    AtEnd,
}

/// The boundary scanner. It holds the bytes that were pushed but not yet
/// confirmed as body or delimiter; at most one delimiter-length tail is ever
/// held back, so a delimiter split across two chunks is still found.
///
/// The buffer is seeded with a virtual CRLF so that the delimiter before the
/// first field is found by the same search as every later one.
pub struct BoundaryFinder {
    delim: Vec<u8>,
    buf: Vec<u8>,
    phase: ScanPhase,
    closed: bool,
    emitted: Ghost<Seq<u8>>,
}


/// Exactly what one [`BoundaryFinder::body_chunk`] step may do, as a
/// relation between the scanner before (`pre`) and after (`post`) and the
/// returned poll result. Callers that forward body chunks restate their
/// behaviour through this relation.
pub open spec fn body_chunk_post(
    pre: BoundaryFinder,
    post: BoundaryFinder,
    r: Result<Async<Option<Vec<u8>>>, Error>,
) -> bool {
    &&& post.delim_bytes() == pre.delim_bytes()
    &&& post.is_closed() == pre.is_closed()
    &&& (pre.phase_spec() == ScanPhase::AtEnd ==> r == Result::<
        Async<Option<Vec<u8>>>,
        Error,
    >::Ok(Async::Ready(None)) && post == pre)
    &&& (pre.phase_spec() == ScanPhase::AtBoundary ==> r == Result::<
        Async<Option<Vec<u8>>>,
        Error,
    >::Ok(Async::Ready(None)) && post == pre)
    &&& (pre.phase_spec() == ScanPhase::Scanning ==> match r {
        Ok(Async::Ready(Some(ch))) => {
            let n = ch@.len() as int;
            &&& post.phase_spec() == ScanPhase::Scanning
            &&& n > 0
            &&& ch@ == pre.buf_bytes().take(n)
            &&& post.buf_bytes() == pre.buf_bytes().skip(n)
            &&& post.emitted_bytes() == pre.emitted_bytes() + ch@
            &&& post.fed_field() == pre.fed_field()
            &&& ((occurs_at(pre.buf_bytes(), pre.delim_bytes(), n) && (forall|j: int|
                0 <= j < n ==> !occurs_at(pre.buf_bytes(), pre.delim_bytes(), j))) || ((
            forall|j: int| !occurs_at(pre.buf_bytes(), pre.delim_bytes(), j))
                && is_partial_suffix(
                pre.buf_bytes(),
                pre.delim_bytes(),
                pre.buf_bytes().len() - n,
            )))
        },
        Ok(Async::Ready(None)) => {
            &&& post.phase_spec() == ScanPhase::AtBoundary
            &&& post.buf_bytes() == pre.buf_bytes()
            &&& post.emitted_bytes() == pre.emitted_bytes()
            &&& occurs_at(pre.buf_bytes(), pre.delim_bytes(), 0)
        },
        Ok(Async::NotReady) => {
            &&& post == pre
            &&& !pre.is_closed()
            &&& is_partial_suffix(pre.buf_bytes(), pre.delim_bytes(), pre.buf_bytes().len() as int)
        },
        Err(e) => {
            &&& e.kind == ErrorKind::Boundary
            &&& pre.is_closed()
            &&& post.phase_spec() == ScanPhase::Scanning
            &&& post.buf_bytes() == pre.buf_bytes()
            &&& post.emitted_bytes() == pre.emitted_bytes()
            &&& forall|j: int| !occurs_at(pre.buf_bytes(), pre.delim_bytes(), j)
            &&& is_partial_suffix(pre.buf_bytes(), pre.delim_bytes(), pre.buf_bytes().len() as int)
        },
    })
}


/// Exactly what one [`BoundaryFinder::consume_boundary`] step may do, over
/// the field bytes seen so far (`pre.fed_field()`) and the delimiter: which
/// result is owed is a function of those bytes and of whether the input has
/// closed, never of how the bytes were cut into chunks.
pub open spec fn consume_boundary_post(
    pre: BoundaryFinder,
    post: BoundaryFinder,
    r: Result<Async<bool>, Error>,
) -> bool {
    let f = pre.fed_field();
    let d = pre.delim_bytes();
    &&& post.delim_bytes() == d
    &&& post.is_closed() == pre.is_closed()
    &&& (pre.phase_spec() == ScanPhase::AtEnd ==> r == Result::<Async<bool>, Error>::Ok(
        Async::Ready(false),
    ) && post == pre)
    &&& (pre.phase_spec() != ScanPhase::AtEnd ==> match r {
        Ok(Async::Ready(more)) => {
            if more {
                exists|p: int|
                    #![trigger is_first_occ(f, d, p)]
                    {
                        &&& is_first_occ(f, d, p)
                        &&& p + d.len() + 2 <= f.len()
                        &&& f[p + d.len()] == 13 && f[p + d.len() + 1] == 10
                        &&& post.phase_spec() == ScanPhase::Scanning
                        &&& post.emitted_bytes().len() == 0
                        &&& post.buf_bytes() == f.skip(p + d.len() + 2)
                    }
            } else {
                &&& post.phase_spec() == ScanPhase::AtEnd
                &&& exists|p: int|
                    #![trigger is_first_occ(f, d, p)]
                    is_first_occ(f, d, p) && p + d.len() + 2 <= f.len() && f[p + d.len()] == 45
                        && f[p + d.len() + 1] == 45
            }
        },
        Ok(Async::NotReady) => {
            &&& !pre.is_closed()
            &&& post.fed_field() == f
            &&& forall|p: int| #[trigger] is_first_occ(f, d, p) ==> p + d.len() + 2 > f.len()
        },
        Err(e) => {
            &&& e.kind == ErrorKind::Boundary
            &&& ((pre.is_closed() && (forall|p: int| #[trigger] is_first_occ(f, d, p) ==> p
                + d.len() + 2 > f.len())) || (exists|p: int|
                #![trigger is_first_occ(f, d, p)]
                is_first_occ(f, d, p) && p + d.len() + 2 <= f.len() && !(f[p + d.len()] == 13 && f[
                    p + d.len() + 1
                ] == 10) && !(f[p + d.len()] == 45 && f[p + d.len() + 1] == 45)))
        },
    })
}

impl BoundaryFinder {
    /// The full delimiter searched for: CRLF, two dashes, then the boundary
    /// token.
    pub closed spec fn delim_bytes(self) -> Seq<u8> {
        self.delim@
    }

    /// The pushed bytes not yet yielded or consumed.
    pub closed spec fn buf_bytes(self) -> Seq<u8> {
        self.buf@
    }

    /// The scanner's phase.
    pub closed spec fn phase_spec(self) -> ScanPhase {
        self.phase
    }

    /// Whether the inbound sequence has signalled its end.
    pub closed spec fn is_closed(self) -> bool {
        self.closed
    }

    /// The body bytes yielded since the current field began.
    pub closed spec fn emitted_bytes(self) -> Seq<u8> {
        self.emitted@
    }

    /// Everything of the current field seen so far: the bytes already
    /// yielded followed by the bytes still buffered. Pushing a chunk only
    /// ever appends to this, so it does not depend on how the input was cut
    /// into chunks.
    pub open spec fn fed_field(self) -> Seq<u8> {
        self.emitted_bytes() + self.buf_bytes()
    }

    /// No occurrence of the delimiter can ever begin inside the first `n`
    /// bytes of the field: each such position already holds a byte that
    /// contradicts the delimiter, whatever arrives later.
    pub open spec fn clean_before(self, n: int) -> bool {
        forall|s: int| 0 <= s < n ==> mismatch_within(self.fed_field(), self.delim_bytes(), s)
    }

    /// The scanner's invariant. While scanning, every byte already yielded
    /// as body is definitely not part of a delimiter; at a boundary, the
    /// delimiter additionally sits exactly at the front of the buffer — so
    /// the yielded bytes are exactly the field body before its first
    /// occurrence.
    pub open spec fn wf(self) -> bool {
        &&& self.delim_bytes().len() >= 5
        &&& (self.phase_spec() == ScanPhase::Scanning
            ==> self.clean_before(self.emitted_bytes().len() as int))
        &&& (self.phase_spec() == ScanPhase::AtBoundary ==> occurs_at(
            self.buf_bytes(),
            self.delim_bytes(),
            0,
        ) && self.clean_before(self.emitted_bytes().len() as int))
    }

    /// A new scanner for the given boundary (already carrying its leading
    /// two dashes). The buffer starts with a virtual CRLF, standing for the
    /// line break that precedes every delimiter line.
    pub fn new(boundary: Vec<u8>) -> (f: BoundaryFinder)
        requires
            boundary@.len() >= 3,
        ensures
            f.wf(),
            f.delim_bytes() == seq![13u8, 10u8] + boundary@,
            f.buf_bytes() == seq![13u8, 10u8],
            f.phase_spec() == ScanPhase::Scanning,
            !f.is_closed(),
            f.emitted_bytes().len() == 0,
    {
        let mut delim: Vec<u8> = Vec::new();
        delim.push(13);
        delim.push(10);
        delim.extend_from_slice(boundary.as_slice());
        let mut buf: Vec<u8> = Vec::new();
        buf.push(13);
        buf.push(10);
        proof {
            assert(delim@ =~= seq![13u8, 10u8] + boundary@);
            assert(buf@ =~= seq![13u8, 10u8]);
        }
        BoundaryFinder {
            delim,
            buf,
            phase: ScanPhase::Scanning,
            closed: false,
            emitted: Ghost(Seq::empty()),
        }
    }

    /// Hand the scanner the next chunk of the inbound sequence. Chunk edges
    /// carry no meaning: only the concatenation of everything pushed counts.
    pub fn push_chunk(&mut self, chunk: Vec<u8>)
        requires
            old(self).wf(),
            !old(self).is_closed(),
        ensures
            final(self).wf(),
            final(self).buf_bytes() == old(self).buf_bytes() + chunk@,
            final(self).fed_field() == old(self).fed_field() + chunk@,
            final(self).delim_bytes() == old(self).delim_bytes(),
            final(self).phase_spec() == old(self).phase_spec(),
            final(self).emitted_bytes() == old(self).emitted_bytes(),
            !final(self).is_closed(),
    {
        let ghost pre = self.fed_field();
        let ghost cbytes = chunk@;
        let mut chunk = chunk;
        self.buf.append(&mut chunk);
        proof {
            assert(self.fed_field() =~= pre + cbytes);
            if self.phase_spec() == ScanPhase::Scanning || self.phase_spec()
                == ScanPhase::AtBoundary {
                lemma_clean_extend(*old(self), *self);
            }
            if self.phase_spec() == ScanPhase::AtBoundary {
                let d = self.delim_bytes();
                assert forall|k: int| 0 <= k < d.len() implies self.buf_bytes()[k] == d[k] by {
                    assert(self.buf_bytes()[k] == old(self).buf_bytes()[k]);
                }
            }
        }
    }

    /// Signal that the inbound sequence has ended: no more chunks will come.
    pub fn close(&mut self)
        requires
            old(self).wf(),
        ensures
            final(self).wf(),
            final(self).is_closed(),
            final(self).delim_bytes() == old(self).delim_bytes(),
            final(self).buf_bytes() == old(self).buf_bytes(),
            final(self).phase_spec() == old(self).phase_spec(),
            final(self).emitted_bytes() == old(self).emitted_bytes(),
    {
        self.closed = true;
        proof {
            if self.phase_spec() == ScanPhase::Scanning || self.phase_spec()
                == ScanPhase::AtBoundary {
                lemma_clean_extend(*old(self), *self);
            }
        }
    }

    /// Yield the next slice of the current field's body, truncated exactly
    /// at the first byte of the boundary delimiter.
    ///
    /// `Ready(Some(chunk))` hands out confirmed body bytes; `Ready(None)`
    /// says the boundary has been reached with no body bytes remaining;
    /// `NotReady` asks for more input, holding back only a tail that could
    /// still grow into a delimiter. Once the input is closed, a field whose
    /// delimiter never arrives is a boundary error.
    pub fn body_chunk(&mut self) -> (r: Result<Async<Option<Vec<u8>>>, Error>)
        requires
            old(self).wf(),
        ensures
            final(self).wf(),
            body_chunk_post(*old(self), *final(self), r),
    {
        match self.phase {
            ScanPhase::AtEnd => {
                return Ok(Async::Ready(None));
            },
            ScanPhase::AtBoundary => {
                return Ok(Async::Ready(None));
            },
            ScanPhase::Scanning => {},
        }
        let ghost pre = self.emitted@;
        let ghost fed = self.fed_field();
        let ghost d = self.delim@;
        match find_first(&self.buf, &self.delim) {
            Some(p) => {
                if p == 0 {
                    self.phase = ScanPhase::AtBoundary;
                    return Ok(Async::Ready(None));
                }
                let rest = self.buf.split_off(p);
                let out = crate::helpers::replace_default(&mut self.buf);
                self.buf = rest;
                proof {
                    self.emitted@ = pre + out@;
                    assert(out@ =~= old(self).buf_bytes().take(p as int));
                    assert(self.fed_field() =~= fed);
                    assert forall|j: int| 0 <= j < p implies mismatch_within(
                        old(self).buf_bytes(),
                        d,
                        j,
                    ) by {
                        lemma_window_mismatch(old(self).buf_bytes(), d, j);
                    }
                    lemma_clean_grow(*old(self), *self, p as int);
                }
                return Ok(Async::Ready(Some(out)));
            },
            None => {
                let o = longest_overlap(&self.buf, &self.delim);
                let keep = self.buf.len() - o;
                if keep > 0 {
                    let rest = self.buf.split_off(keep);
                    let out = crate::helpers::replace_default(&mut self.buf);
                    self.buf = rest;
                    proof {
                        self.emitted@ = pre + out@;
                        assert(out@ =~= old(self).buf_bytes().take(keep as int));
                        assert(self.fed_field() =~= fed);
                        lemma_overlap_mismatch(old(self).buf_bytes(), d, o as int);
                        lemma_clean_grow(*old(self), *self, keep as int);
                    }
                    return Ok(Async::Ready(Some(out)));
                }
                if self.closed {
                    return Err(Error::new(
                        ErrorKind::Boundary,
                        "stream ended before the boundary delimiter",
                    ));
                }
                Ok(Async::NotReady)
            },
        }
    }

    /// The scanner's phase.
    pub fn phase(&self) -> (p: ScanPhase)
        ensures
            p == self.phase_spec(),
    {
        self.phase
    }

    /// Hand bytes that were read past the end of the header block back to
    /// the scanner, and begin the body accounting of a fresh field.
    pub fn unread_bytes(&mut self, bytes: Vec<u8>)
        requires
            old(self).wf(),
            old(self).phase_spec() == ScanPhase::Scanning,
        ensures
            final(self).wf(),
            final(self).delim_bytes() == old(self).delim_bytes(),
            final(self).is_closed() == old(self).is_closed(),
            final(self).phase_spec() == ScanPhase::Scanning,
            final(self).buf_bytes() == bytes@ + old(self).buf_bytes(),
            final(self).emitted_bytes().len() == 0,
    {
        let mut front = bytes;
        let mut back = crate::helpers::replace_default(&mut self.buf);
        front.append(&mut back);
        self.buf = front;
        proof {
            self.emitted@ = Seq::empty();
        }
    }

    /// Consume the delimiter line, discarding any unread remainder of the
    /// current field first, and report whether more fields follow: `true`
    /// when the delimiter line continues with CRLF into another field's
    /// headers, `false` at the terminal `--boundary--` marker. Anything else
    /// after the delimiter is a malformed boundary line.
    pub fn consume_boundary(&mut self) -> (r: Result<Async<bool>, Error>)
        requires
            old(self).wf(),
        ensures
            final(self).wf(),
            final(self).delim_bytes() == old(self).delim_bytes(),
            final(self).is_closed() == old(self).is_closed(),
            consume_boundary_post(*old(self), *final(self), r),
            match r {
                Ok(Async::Ready(more)) => {
                    &&& (more ==> final(self).phase_spec() == ScanPhase::Scanning && final(self).emitted_bytes().len() == 0)
                    &&& (!more ==> final(self).phase_spec() == ScanPhase::AtEnd)
                    &&& (old(self).phase_spec() == ScanPhase::AtEnd ==> !more)
                },
                Ok(Async::NotReady) => !old(self).is_closed(),
                Err(e) => e.kind == ErrorKind::Boundary,
            },
            old(self).phase_spec() == ScanPhase::AtBoundary ==> match r {
                Ok(Async::Ready(more)) => {
                    let d = old(self).delim_bytes();
                    let b = old(self).buf_bytes();
                    &&& b.len() >= d.len() + 2
                    &&& (more ==> b[d.len() as int] == 13 && b[d.len() as int + 1] == 10 && final(self).buf_bytes() == b.skip(d.len() as int + 2))
                    &&& (!more ==> b[d.len() as int] == 45 && b[d.len() as int + 1] == 45)
                },
                Ok(Async::NotReady) => old(self).buf_bytes().len() < old(self).delim_bytes().len()
                    + 2 && *final(self) == *old(self),
                Err(e) => {
                    let d = old(self).delim_bytes();
                    let b = old(self).buf_bytes();
                    &&& e.kind == ErrorKind::Boundary
                    &&& (b.len() >= d.len() + 2 ==> !(b[d.len() as int] == 13 && b[d.len() as int
                        + 1] == 10) && !(b[d.len() as int] == 45 && b[d.len() as int + 1] == 45))
                    &&& (b.len() < d.len() + 2 ==> old(self).is_closed())
                },
            },
    {
        let ghost f = old(self).fed_field();
        let ghost d = old(self).delim_bytes();
        loop
            invariant
                self.wf(),
                self.delim_bytes() == old(self).delim_bytes(),
                self.is_closed() == old(self).is_closed(),
                self.phase_spec() == ScanPhase::Scanning ==> old(self).phase_spec()
                    == ScanPhase::Scanning,
                self.phase_spec() == ScanPhase::AtBoundary ==> (old(self).phase_spec()
                    == ScanPhase::Scanning || *self == *old(self)),
                self.phase_spec() == ScanPhase::AtEnd ==> old(self).phase_spec()
                    == ScanPhase::AtEnd && *self == *old(self),
                self.phase_spec() != ScanPhase::AtEnd ==> self.fed_field() == f,
                f == old(self).fed_field(),
                d == old(self).delim_bytes(),
            decreases self.buf@.len(), (if self.phase_spec() == ScanPhase::Scanning {
                1int
            } else {
                0int
            }),
        {
            match self.phase {
                ScanPhase::AtEnd => {
                    return Ok(Async::Ready(false));
                },
                ScanPhase::Scanning => {
                    // drain and discard whatever is left of the current
                    // field's body, up to the delimiter
                    let ghost pre_step = *self;
                    match self.body_chunk() {
                        Ok(Async::Ready(Some(_))) => {},
                        Ok(Async::Ready(None)) => {},
                        Ok(Async::NotReady) => {
                            proof {
                                lemma_short_buffer_no_occurrence(*self, f, d);
                            }
                            return Ok(Async::NotReady);
                        },
                        Err(e) => {
                            proof {
                                lemma_short_buffer_no_occurrence(*self, f, d);
                            }
                            return Err(e);
                        },
                    }
                },
                ScanPhase::AtBoundary => {
                    proof {
                        lemma_emitted_is_field_body(*self);
                        assert forall|j: int| 0 <= j < self.emitted_bytes().len()
                            implies !occurs_at(f, d, j) by {
                            lemma_mismatch_not_occurs(f, d, j);
                        }
                        assert(is_first_occ(f, d, self.emitted_bytes().len() as int));
                        lemma_is_first_occ_unique(f, d, self.emitted_bytes().len() as int);
                    }
                    let ghost e = self.emitted_bytes().len() as int;
                    let dlen = self.delim.len();
                    let blen = self.buf.len();
                    proof {
                        assert(f.len() == e + blen);
                        assert(forall|k: int| 0 <= k < blen ==> f[e + k] == self.buf@[k]);
                    }
                    if blen - dlen < 2 {
                        if self.closed {
                            return Err(Error::new(
                                ErrorKind::Boundary,
                                "stream ended inside the boundary delimiter line",
                            ));
                        }
                        return Ok(Async::NotReady);
                    }
                    let b1 = self.buf[dlen];
                    let b2 = self.buf[dlen + 1];
                    proof {
                        assert(f[e + dlen] == b1 && f[e + dlen + 1] == b2);
                    }
                    if b1 == 45 && b2 == 45 {
                        // the terminal marker: two dashes after the delimiter
                        let rest = self.buf.split_off(dlen + 2);
                        self.buf = rest;
                        self.phase = ScanPhase::AtEnd;
                        return Ok(Async::Ready(false));
                    }
                    if b1 == 13 && b2 == 10 {
                        // the delimiter line ends: another field follows
                        let rest = self.buf.split_off(dlen + 2);
                        self.buf = rest;
                        self.phase = ScanPhase::Scanning;
                        proof {
                            self.emitted@ = Seq::empty();
                            assert(self.buf_bytes() =~= f.skip(e + dlen + 2));
                        }
                        return Ok(Async::Ready(true));
                    }
                    return Err(Error::new(
                        ErrorKind::Boundary,
                        "malformed boundary delimiter line",
                    ));
                },
            }
        }
    }
}


/// When the field bytes hold a delimiter line that continues with CRLF into
/// another field, [`consume_boundary_post`] leaves only one possibility:
/// the step succeeded, and the scanner stands at the start of that field's
/// headers.
pub proof fn lemma_consume_outcome_determined(
    pre: BoundaryFinder,
    post: BoundaryFinder,
    cr: Result<Async<bool>, Error>,
    p: int,
)
    requires
        consume_boundary_post(pre, post, cr),
        pre.phase_spec() != ScanPhase::AtEnd,
        is_first_occ(pre.fed_field(), pre.delim_bytes(), p),
        p + pre.delim_bytes().len() + 2 <= pre.fed_field().len(),
        pre.fed_field()[p + pre.delim_bytes().len()] == 13,
        pre.fed_field()[p + pre.delim_bytes().len() + 1] == 10,
    ensures
        cr == Result::<Async<bool>, Error>::Ok(Async::Ready(true)),
        post.phase_spec() == ScanPhase::Scanning,
        post.emitted_bytes().len() == 0,
        post.buf_bytes() == pre.fed_field().skip(p + pre.delim_bytes().len() + 2),
{
    let f = pre.fed_field();
    let d = pre.delim_bytes();
    lemma_is_first_occ_unique(f, d, p);
    match cr {
        Ok(Async::Ready(more)) => {
            if more {
                let p2 = choose|p2: int|
                    #![trigger is_first_occ(f, d, p2)]
                    {
                        &&& is_first_occ(f, d, p2)
                        &&& p2 + d.len() + 2 <= f.len()
                        &&& f[p2 + d.len()] == 13 && f[p2 + d.len() + 1] == 10
                        &&& post.phase_spec() == ScanPhase::Scanning
                        &&& post.emitted_bytes().len() == 0
                        &&& post.buf_bytes() == f.skip(p2 + d.len() + 2)
                    };
                assert(p2 == p);
            } else {
                let p2 = choose|p2: int|
                    #![trigger is_first_occ(f, d, p2)]
                    is_first_occ(f, d, p2) && p2 + d.len() + 2 <= f.len() && f[p2 + d.len()]
                        == 45 && f[p2 + d.len() + 1] == 45;
                assert(p2 == p);
                assert(false);
            }
        },
        Ok(Async::NotReady) => {
            assert(p + d.len() + 2 > f.len());
            assert(false);
        },
        Err(e) => {
            if pre.is_closed() && (forall|p2: int| #[trigger] is_first_occ(f, d, p2) ==> p2
                + d.len() + 2 > f.len()) {
                assert(p + d.len() + 2 > f.len());
                assert(false);
            } else {
                let p2 = choose|p2: int|
                    #![trigger is_first_occ(f, d, p2)]
                    is_first_occ(f, d, p2) && p2 + d.len() + 2 <= f.len() && !(f[p2 + d.len()]
                        == 13 && f[p2 + d.len() + 1] == 10) && !(f[p2 + d.len()] == 45 && f[p2
                        + d.len() + 1] == 45);
                assert(p2 == p);
                assert(false);
            }
        },
    }
}

/// A position that carries a definite mismatch is no occurrence.
proof fn lemma_mismatch_not_occurs(f: Seq<u8>, d: Seq<u8>, j: int)
    requires
        mismatch_within(f, d, j),
    ensures
        !occurs_at(f, d, j),
{
    let k = choose|k: int| 0 <= k < d.len() && j + k < f.len() && f[j + k] != d[k];
    if occurs_at(f, d, j) {
        assert(f[j + k] == d[k]);
    }
}

/// While the scanner holds no more than a partial-delimiter tail, the field
/// bytes seen so far contain no full occurrence of the delimiter at all.
proof fn lemma_short_buffer_no_occurrence(s: BoundaryFinder, f: Seq<u8>, d: Seq<u8>)
    requires
        s.wf(),
        s.phase_spec() == ScanPhase::Scanning,
        s.fed_field() == f,
        s.delim_bytes() == d,
        s.buf_bytes().len() < d.len(),
    ensures
        forall|p: int| !occurs_at(f, d, p),
{
    let e = s.emitted_bytes().len() as int;
    assert(f.len() == e + s.buf_bytes().len());
    assert forall|p: int| !occurs_at(f, d, p) by {
        if 0 <= p < e {
            assert(mismatch_within(f, d, p));
            lemma_mismatch_not_occurs(f, d, p);
        } else if p >= e {
            // a full occurrence would not fit in the remaining tail
            assert(p + d.len() > f.len());
        }
    }
}

/// Appending inbound bytes to the buffer cannot disturb the mismatch
/// witnesses that protect the bytes already yielded.
proof fn lemma_clean_extend(pre: BoundaryFinder, post: BoundaryFinder)
    requires
        pre.clean_before(pre.emitted_bytes().len() as int),
        post.emitted_bytes() == pre.emitted_bytes(),
        post.delim_bytes() == pre.delim_bytes(),
        pre.fed_field().len() <= post.fed_field().len(),
        forall|i: int| 0 <= i < pre.fed_field().len() ==> post.fed_field()[i]
            == pre.fed_field()[i],
    ensures
        post.clean_before(post.emitted_bytes().len() as int),
{
    let d = pre.delim_bytes();
    assert forall|s: int| 0 <= s < post.emitted_bytes().len() implies mismatch_within(
        post.fed_field(),
        d,
        s,
    ) by {
        assert(mismatch_within(pre.fed_field(), d, s));
        let k = choose|k: int| 0 <= k < d.len() && s + k < pre.fed_field().len()
            && pre.fed_field()[s + k] != d[k];
        assert(post.fed_field()[s + k] != d[k]);
    }
}

/// When the scanner confirms the first `n` buffered bytes as body — because
/// the delimiter's first occurrence lies at `n`, or because no occurrence
/// can begin before `n` — the mismatch witnesses extend to cover them.
proof fn lemma_clean_grow(pre: BoundaryFinder, post: BoundaryFinder, n: int)
    requires
        pre.clean_before(pre.emitted_bytes().len() as int),
        0 < n <= pre.buf_bytes().len(),
        post.delim_bytes() == pre.delim_bytes(),
        post.emitted_bytes() == pre.emitted_bytes() + pre.buf_bytes().take(n),
        post.fed_field() == pre.fed_field(),
        forall|j: int| 0 <= j < n ==> mismatch_within(pre.buf_bytes(), pre.delim_bytes(), j),
    ensures
        post.clean_before(post.emitted_bytes().len() as int),
{
    let d = pre.delim_bytes();
    let e = pre.emitted_bytes().len() as int;
    assert forall|s: int| 0 <= s < post.emitted_bytes().len() implies mismatch_within(
        post.fed_field(),
        d,
        s,
    ) by {
        if s < e {
            assert(mismatch_within(pre.fed_field(), d, s));
        } else {
            let j = s - e;
            assert(mismatch_within(pre.buf_bytes(), d, j));
            let k = choose|k: int| 0 <= k < d.len() && j + k < pre.buf_bytes().len()
                && pre.buf_bytes()[j + k] != d[k];
            assert(pre.fed_field()[e + j + k] == pre.buf_bytes()[j + k]);
            assert(post.fed_field()[s + k] != d[k]);
        }
    }
}

/// A position with a full delimiter-sized window but no occurrence holds a
/// definite mismatch.
proof fn lemma_window_mismatch(buf: Seq<u8>, d: Seq<u8>, j: int)
    requires
        0 <= j,
        j + d.len() <= buf.len(),
        !occurs_at(buf, d, j),
    ensures
        mismatch_within(buf, d, j),
{
    if !mismatch_within(buf, d, j) {
        assert forall|k: int| 0 <= k < d.len() implies buf[j + k] == d[k] by {
            assert(!(j + k < buf.len() && buf[j + k] != d[k]));
        }
        assert(occurs_at(buf, d, j));
    }
}

/// Boundary-split invariance: two scanners for the same delimiter that were
/// fed the same field bytes — however differently those bytes were cut into
/// chunks — and that both stand at the boundary have yielded exactly the
/// same body. The body a field yields is a function of the byte stream
/// alone, never of its chunking.
pub proof fn lemma_boundary_split_invariance(f1: BoundaryFinder, f2: BoundaryFinder)
    requires
        f1.wf(),
        f2.wf(),
        f1.phase_spec() == ScanPhase::AtBoundary,
        f2.phase_spec() == ScanPhase::AtBoundary,
        f1.delim_bytes() == f2.delim_bytes(),
        f1.fed_field() == f2.fed_field(),
    ensures
        f1.emitted_bytes() == f2.emitted_bytes(),
{
    let d = f1.delim_bytes();
    let fed = f1.fed_field();
    let n1 = f1.emitted_bytes().len() as int;
    let n2 = f2.emitted_bytes().len() as int;
    lemma_emitted_is_field_body(f1);
    lemma_emitted_is_field_body(f2);
    lemma_first_occurrence_unique(fed, d, n1, n2);
    assert(f1.emitted_bytes() =~= fed.take(n1));
    assert(f2.emitted_bytes() =~= fed.take(n2));
}

/// At a boundary, the yielded bytes are exactly the bytes of the field
/// before the first occurrence of the delimiter: the delimiter occurs right
/// after them, and it can occur nowhere earlier.
pub proof fn lemma_emitted_is_field_body(f: BoundaryFinder)
    requires
        f.wf(),
        f.phase_spec() == ScanPhase::AtBoundary,
    ensures
        occurs_at(f.fed_field(), f.delim_bytes(), f.emitted_bytes().len() as int),
        forall|s: int| 0 <= s < f.emitted_bytes().len() ==> mismatch_within(
            f.fed_field(),
            f.delim_bytes(),
            s,
        ),
        f.emitted_bytes() == f.fed_field().take(f.emitted_bytes().len() as int),
    {
    let d = f.delim_bytes();
    let e = f.emitted_bytes().len() as int;
    assert(occurs_at(f.buf_bytes(), d, 0));
    assert forall|k: int| 0 <= k < d.len() implies f.fed_field()[e + k] == d[k] by {
        assert(f.fed_field()[e + k] == f.buf_bytes()[k]);
    }
    assert(f.emitted_bytes() =~= f.fed_field().take(e));
}

} // verus!
