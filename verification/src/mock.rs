//! A scripted chunk source for exercising the parser: a fixed list of poll
//! outcomes — chunks, suspensions or errors — handed out one per poll, each
//! optionally repeated.

use vstd::prelude::*;
use vstd::slice::slice_to_vec;
use crate::error::StringError;
use crate::helpers::{Async, Poll, PollOpt};

verus! {

broadcast use vstd::seq_lib::group_seq_lib_default, vstd::seq::group_seq_axioms;

/// Whether two scripted poll outcomes carry the same content: equal chunk
/// bytes, both suspensions, or equal errors.
pub open spec fn poll_matches(a: Poll<Vec<u8>, StringError>, b: Poll<Vec<u8>, StringError>) -> bool {
    match (a, b) {
        (Ok(Async::Ready(x)), Ok(Async::Ready(y))) => x@ == y@,
        (Ok(Async::NotReady), Ok(Async::NotReady)) => true,
        (Err(x), Err(y)) => x == y,
        _ => false,
    }
}

/// Whether a yielded stream step carries the same content as a scripted
/// outcome.
pub open spec fn yielded_matches(
    r: PollOpt<Vec<u8>, StringError>,
    b: Poll<Vec<u8>, StringError>,
) -> bool {
    match (r, b) {
        (Ok(Async::Ready(Some(x))), Ok(Async::Ready(y))) => x@ == y@,
        (Ok(Async::NotReady), Ok(Async::NotReady)) => true,
        (Err(x), Err(y)) => x == y,
        _ => false,
    }
}

/// An equal-content copy of a scripted poll outcome.
fn clone_poll(p: &Poll<Vec<u8>, StringError>) -> (r: Poll<Vec<u8>, StringError>)
    ensures
        poll_matches(r, *p),
{
    match p {
        Ok(Async::Ready(v)) => {
            let mut copy: Vec<u8> = Vec::new();
            copy.extend_from_slice(v.as_slice());
            proof {
                assert(copy@ =~= v@);
            }
            Ok(Async::Ready(copy))
        },
        Ok(Async::NotReady) => Ok(Async::NotReady),
        Err(e) => Err(StringError { message: e.message.clone() }),
    }
}

/// A scripted chunk source: each entry is one poll outcome and the number
/// of extra times it repeats before the next entry is served. Once the
/// script runs out, every further poll reports the end of the stream.
pub struct MockStream {
    items: Vec<(Poll<Vec<u8>, StringError>, u32)>,
}

impl MockStream {
    /// The remaining script.
    pub closed spec fn items_spec(self) -> Seq<(Poll<Vec<u8>, StringError>, u32)> {
        self.items@
    }

    /// A source that will serve exactly this script.
    pub fn new(items: Vec<(Poll<Vec<u8>, StringError>, u32)>) -> (s: MockStream)
        ensures
            s.items_spec() == items@,
    {
        MockStream { items }
    }

    /// Serve the next scripted outcome. An entry with repeats left is
    /// served and retained with one repeat fewer; an exhausted script
    /// reports the end of the stream forever.
    pub fn poll_next(&mut self) -> (r: PollOpt<Vec<u8>, StringError>)
        ensures
            old(self).items_spec().len() == 0 ==> r == Result::<
                Async<Option<Vec<u8>>>,
                StringError,
            >::Ok(Async::Ready(None)) && *final(self) == *old(self),
            old(self).items_spec().len() > 0 ==> {
                let entry = old(self).items_spec()[0];
                &&& yielded_matches(r, entry.0)
                &&& (entry.1 == 0 ==> final(self).items_spec() == old(self).items_spec().skip(1))
                &&& (entry.1 > 0 ==> {
                    &&& final(self).items_spec().len() == old(self).items_spec().len()
                    &&& final(self).items_spec().skip(1) == old(self).items_spec().skip(1)
                    &&& poll_matches(final(self).items_spec()[0].0, entry.0)
                    &&& final(self).items_spec()[0].1 == entry.1 - 1
                })
            },
    {
        if self.items.len() == 0 {
            return Ok(Async::Ready(None));
        }
        let (item, repeat) = self.items.remove(0);
        if repeat > 0 {
            let copy = clone_poll(&item);
            self.items.insert(0, (copy, repeat - 1));
            proof {
                assert(self.items@.skip(1) =~= old(self).items@.skip(1));
            }
        }
        match item {
            Ok(Async::Ready(v)) => Ok(Async::Ready(Some(v))),
            Ok(Async::NotReady) => Ok(Async::NotReady),
            Err(e) => Err(e),
        }
    }
}

/// What a value contributes to a script: the bytes of the chunk it stands
/// for.
pub trait IntoPoll: Sized {
    /// The chunk bytes this value stands for.
    spec fn chunk_bytes(self) -> Seq<u8>;

    /// Wrap the value as a ready scripted outcome.
    fn into_poll(self) -> (r: Poll<Vec<u8>, StringError>)
        ensures
            (r matches Ok(p) && p matches Async::Ready(v) && v@ == self.chunk_bytes()),
    ;
}

impl IntoPoll for Vec<u8> {
    open spec fn chunk_bytes(self) -> Seq<u8> {
        self@
    }

    fn into_poll(self) -> (r: Poll<Vec<u8>, StringError>) {
        Ok(Async::Ready(self))
    }
}

impl IntoPoll for &[u8] {
    open spec fn chunk_bytes(self) -> Seq<u8> {
        self@
    }

    fn into_poll(self) -> (r: Poll<Vec<u8>, StringError>) {
        Ok(Async::Ready(slice_to_vec(self)))
    }
}

impl IntoPoll for &str {
    open spec fn chunk_bytes(self) -> Seq<u8> {
        vstd::utf8::encode_utf8(self@)
    }

    fn into_poll(self) -> (r: Poll<Vec<u8>, StringError>) {
        Ok(Async::Ready(slice_to_vec(self.as_bytes())))
    }
}

impl IntoPoll for String {
    open spec fn chunk_bytes(self) -> Seq<u8> {
        vstd::utf8::encode_utf8(self@)
    }

    fn into_poll(self) -> (r: Poll<Vec<u8>, StringError>) {
        Ok(Async::Ready(slice_to_vec(self.as_str().as_bytes())))
    }
}

/// Wrap a value as a ready scripted outcome.
pub fn into_poll<T: IntoPoll>(from: T) -> (r: Poll<Vec<u8>, StringError>)
    ensures
        (r matches Ok(p) && p matches Async::Ready(v) && v@ == from.chunk_bytes()),
{
    from.into_poll()
}

/// Wrap a value as a ready step of a stream that has not ended.
pub fn into_poll_opt<T: IntoPoll>(from: T) -> (r: PollOpt<Vec<u8>, StringError>)
    ensures
        (r matches Ok(p) && p matches Async::Ready(v) && v matches Some(c) && c@
            == from.chunk_bytes()),
{
    match from.into_poll() {
        Ok(Async::Ready(v)) => Ok(Async::Ready(Some(v))),
        Ok(Async::NotReady) => Ok(Async::NotReady),
        Err(e) => Err(e),
    }
}

} // verus!
