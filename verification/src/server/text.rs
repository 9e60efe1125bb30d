//! Folding a field's body chunks into one UTF-8 string, recombining
//! multi-byte sequences that were split across chunk edges and enforcing a
//! byte-length bound.

use vstd::prelude::*;
use vstd::utf8::*;
use crate::error::{Error, ErrorKind};
use crate::helpers::Async;
use crate::server::MultipartStream;
use crate::server::boundary::ScanPhase;
use crate::server::field::FieldData;
use crate::server::headers::FieldHeaders;

verus! {

broadcast use vstd::seq_lib::group_seq_lib_default, vstd::seq::group_seq_axioms;

/// The default byte-length bound for one text field.
pub const DEFAULT_LIMIT: usize = 65536;

/// The highest recommended byte-length bound for one text field. Going
/// higher is allowed, but invites memory exhaustion from hostile inputs.
pub const SOFT_MAX_LIMIT: usize = 16777216;

/// Builds the string for a byte buffer already known to be valid UTF-8.
///
/// Relies on `String::from_utf8`, which the standard library documents to
/// return, for valid UTF-8 input, the string made of exactly those bytes;
/// on such input it cannot return an error, so the `unwrap` cannot panic.
#[verifier::external_body]
pub fn string_from_utf8(bytes: Vec<u8>) -> (r: String)
    requires
        valid_utf8(bytes@),
    ensures
        r@ == decode_utf8(bytes@),
{
    String::from_utf8(bytes).unwrap()
}

/// The number of bytes in a valid UTF-8 encoding led by this byte, or zero
/// when no valid encoding begins with it.
pub open spec fn char_width_spec(b: u8) -> nat {
    if b < 0x80 {
        1
    } else if 0xc2 <= b && b <= 0xdf {
        2
    } else if 0xe0 <= b && b <= 0xef {
        3
    } else if 0xf0 <= b && b <= 0xf4 {
        4
    } else {
        0
    }
}

/// The number of bytes in a valid UTF-8 encoding led by this byte, or zero
/// when no valid encoding begins with it.
pub fn utf8_char_width(b: u8) -> (w: usize)
    ensures
        w == char_width_spec(b),
{
    if b < 0x80 {
        1
    } else if 0xc2 <= b && b <= 0xdf {
        2
    } else if 0xe0 <= b && b <= 0xef {
        3
    } else if 0xf0 <= b && b <= 0xf4 {
        4
    } else {
        0
    }
}

/// Whether `b1` may stand directly after the lead byte `b0` in a valid
/// encoding of width two or more. Beyond the plain continuation-byte range,
/// the second byte is what rules out overlong encodings, surrogates and
/// values past the last Unicode scalar.
pub open spec fn second_byte_ok(b0: u8, b1: u8) -> bool {
    if 0xc2 <= b0 && b0 <= 0xdf {
        0x80 <= b1 && b1 <= 0xbf
    } else if b0 == 0xe0 {
        0xa0 <= b1 && b1 <= 0xbf
    } else if b0 == 0xed {
        0x80 <= b1 && b1 <= 0x9f
    } else if 0xe0 <= b0 && b0 <= 0xef {
        0x80 <= b1 && b1 <= 0xbf
    } else if b0 == 0xf0 {
        0x90 <= b1 && b1 <= 0xbf
    } else if b0 == 0xf4 {
        0x80 <= b1 && b1 <= 0x8f
    } else if 0xf0 <= b0 && b0 <= 0xf4 {
        0x80 <= b1 && b1 <= 0xbf
    } else {
        false
    }
}

/// The byte string is a non-empty strict prefix of some valid UTF-8 encoding
/// of a single scalar: a multi-byte sequence that could complete once more
/// bytes arrive, but is not complete yet.
pub open spec fn is_partial_scalar(s: Seq<u8>) -> bool {
    ||| (s.len() == 1 && char_width_spec(s[0]) >= 2)
    ||| (s.len() == 2 && char_width_spec(s[0]) >= 3 && second_byte_ok(s[0], s[1]))
    ||| (s.len() == 3 && char_width_spec(s[0]) == 4 && second_byte_ok(s[0], s[1])
        && is_continuation_byte(s[2]))
}

/// Whether the buffer is a non-empty strict prefix of a valid single-scalar
/// encoding.
pub fn is_partial_scalar_exec(v: &Vec<u8>) -> (b: bool)
    ensures
        b == is_partial_scalar(v@),
{
    if v.len() == 1 {
        utf8_char_width(v[0]) >= 2
    } else if v.len() == 2 {
        utf8_char_width(v[0]) >= 3 && second_byte_ok_exec(v[0], v[1])
    } else if v.len() == 3 {
        utf8_char_width(v[0]) == 4 && second_byte_ok_exec(v[0], v[1]) && 0x80 <= v[2] && v[2]
            <= 0xbf
    } else {
        false
    }
}

/// Whether `b1` may stand directly after the lead byte `b0`.
fn second_byte_ok_exec(b0: u8, b1: u8) -> (b: bool)
    ensures
        b == second_byte_ok(b0, b1),
{
    if 0xc2 <= b0 && b0 <= 0xdf {
        0x80 <= b1 && b1 <= 0xbf
    } else if b0 == 0xe0 {
        0xa0 <= b1 && b1 <= 0xbf
    } else if b0 == 0xed {
        0x80 <= b1 && b1 <= 0x9f
    } else if 0xe0 <= b0 && b0 <= 0xef {
        0x80 <= b1 && b1 <= 0xbf
    } else if b0 == 0xf0 {
        0x90 <= b1 && b1 <= 0xbf
    } else if b0 == 0xf4 {
        0x80 <= b1 && b1 <= 0x8f
    } else if 0xf0 <= b0 && b0 <= 0xf4 {
        0x80 <= b1 && b1 <= 0xbf
    } else {
        false
    }
}

/// The width of the valid scalar encoding starting at index `i` of the
/// buffer, or zero when no valid scalar encoding starts there.
fn scalar_width_at(v: &Vec<u8>, i: usize) -> (w: usize)
    requires
        i < v@.len(),
    ensures
        w == 0 ==> !valid_first_scalar(v@.skip(i as int)),
        w != 0 ==> valid_first_scalar(v@.skip(i as int))
            && length_of_first_scalar(v@.skip(i as int)) == w && i + w <= v@.len(),
        w <= 4,
{
    let ghost s = v@.skip(i as int);
    let hlen = v.len();
    let b0 = v[i];
    proof {
        assert(s.len() == v@.len() - i);
        assert(s[0] == b0);
    }
    if b0 < 0x80 {
        proof {
            assert(is_leading_byte_width_1(b0));
            assert(b0 & 0x7f < 0xd800) by (bit_vector)
                requires b0 < 0x80;
            assert(valid_first_scalar(s));
        }
        return 1;
    }
    if b0 < 0xc2 {
        proof {
            if valid_first_scalar(s) {
                // only the two-byte pattern can apply, and 0xc0/0xc1 encode
                // values below 0x80: an overlong encoding
                assert(0xc0 <= b0);
                assert(s.len() >= 2 && is_continuation_byte(s[1]));
                let b1 = s[1];
                assert(((((b0 & 0x1f) as u32) << 6) | ((b1 & 0x3f) as u32)) < 0x80) by (bit_vector)
                    requires 0xc0 <= b0 && b0 < 0xc2;
                assert(decode_first_codepoint(s) == ((((b0 & 0x1f) as u32) << 6) | ((b1 & 0x3f)
                    as u32)));
            }
        }
        return 0;
    }
    if b0 <= 0xdf {
        if hlen - i < 2 {
            return 0;
        }
        let b1 = v[i + 1];
        proof {
            assert(s[1] == b1);
        }
        if 0x80 <= b1 && b1 <= 0xbf {
            proof {
                assert(0x80 <= ((((b0 & 0x1f) as u32) << 6) | ((b1 & 0x3f) as u32))
                    && ((((b0 & 0x1f) as u32) << 6) | ((b1 & 0x3f) as u32)) <= 0x7ff)
                    by (bit_vector)
                    requires 0xc2 <= b0 && b0 <= 0xdf && 0x80 <= b1 && b1 <= 0xbf;
                assert(decode_first_codepoint(s) == ((((b0 & 0x1f) as u32) << 6) | ((b1 & 0x3f)
                    as u32)));
                assert(valid_first_scalar(s));
            }
            return 2;
        } else {
            return 0;
        }
    }
    if b0 <= 0xef {
        if hlen - i < 3 {
            return 0;
        }
        let b1 = v[i + 1];
        let b2 = v[i + 2];
        proof {
            assert(s[1] == b1 && s[2] == b2);
        }
        if second_byte_ok_exec(b0, b1) && 0x80 <= b2 && b2 <= 0xbf {
            proof {
                assert(0x800 <= ((((b0 & 0x0f) as u32) << 12) | (((b1 & 0x3f) as u32) << 6) | ((b2
                    & 0x3f) as u32)) && !(0xd800 <= ((((b0 & 0x0f) as u32) << 12) | (((b1 & 0x3f)
                    as u32) << 6) | ((b2 & 0x3f) as u32)) <= 0xdfff)) by (bit_vector)
                    requires
                        0xe0 <= b0 && b0 <= 0xef,
                        0x80 <= b1 && b1 <= 0xbf,
                        0x80 <= b2 && b2 <= 0xbf,
                        b0 == 0xe0 ==> b1 >= 0xa0,
                        b0 == 0xed ==> b1 <= 0x9f;
                assert(decode_first_codepoint(s) == ((((b0 & 0x0f) as u32) << 12) | (((b1 & 0x3f)
                    as u32) << 6) | ((b2 & 0x3f) as u32)));
                assert(valid_first_scalar(s));
            }
            return 3;
        } else {
            proof {
                if valid_first_scalar(s) {
                    assert(is_continuation_byte(s[1]) && is_continuation_byte(s[2]));
                    assert(!second_byte_ok(b0, b1));
                    assert(decode_first_codepoint(s) == ((((b0 & 0x0f) as u32) << 12) | (((b1
                        & 0x3f) as u32) << 6) | ((b2 & 0x3f) as u32)));
                    if b0 == 0xe0 {
                        assert(((((b0 & 0x0f) as u32) << 12) | (((b1 & 0x3f) as u32) << 6) | ((b2
                            & 0x3f) as u32)) < 0x800) by (bit_vector)
                            requires
                                b0 == 0xe0,
                                b1 < 0xa0,
                                0x80 <= b1 && b1 <= 0xbf,
                                0x80 <= b2 && b2 <= 0xbf;
                    } else {
                        assert(b0 == 0xed);
                        assert(0xd800 <= ((((b0 & 0x0f) as u32) << 12) | (((b1 & 0x3f) as u32)
                            << 6) | ((b2 & 0x3f) as u32)) <= 0xdfff) by (bit_vector)
                            requires
                                b0 == 0xed,
                                b1 > 0x9f,
                                0x80 <= b1 && b1 <= 0xbf,
                                0x80 <= b2 && b2 <= 0xbf;
                    }
                }
            }
            return 0;
        }
    }
    if b0 <= 0xf4 {
        if hlen - i < 4 {
            return 0;
        }
        let b1 = v[i + 1];
        let b2 = v[i + 2];
        let b3 = v[i + 3];
        proof {
            assert(s[1] == b1 && s[2] == b2 && s[3] == b3);
        }
        if second_byte_ok_exec(b0, b1) && 0x80 <= b2 && b2 <= 0xbf && 0x80 <= b3 && b3 <= 0xbf {
            proof {
                assert(0x10000 <= ((((b0 & 0x07) as u32) << 18) | (((b1 & 0x3f) as u32) << 12) | (((
                b2 & 0x3f) as u32) << 6) | ((b3 & 0x3f) as u32)) && ((((b0 & 0x07) as u32) << 18)
                    | (((b1 & 0x3f) as u32) << 12) | (((b2 & 0x3f) as u32) << 6) | ((b3 & 0x3f)
                    as u32)) <= 0x10ffff) by (bit_vector)
                    requires
                        0xf0 <= b0 && b0 <= 0xf4,
                        0x80 <= b1 && b1 <= 0xbf,
                        0x80 <= b2 && b2 <= 0xbf,
                        0x80 <= b3 && b3 <= 0xbf,
                        b0 == 0xf0 ==> b1 >= 0x90,
                        b0 == 0xf4 ==> b1 <= 0x8f;
                assert(decode_first_codepoint(s) == ((((b0 & 0x07) as u32) << 18) | (((b1 & 0x3f)
                    as u32) << 12) | (((b2 & 0x3f) as u32) << 6) | ((b3 & 0x3f) as u32)));
                assert(valid_first_scalar(s));
            }
            return 4;
        } else {
            proof {
                if valid_first_scalar(s) {
                    assert(is_continuation_byte(s[1]) && is_continuation_byte(s[2])
                        && is_continuation_byte(s[3]));
                    assert(!second_byte_ok(b0, b1));
                    assert(decode_first_codepoint(s) == ((((b0 & 0x07) as u32) << 18) | (((b1
                        & 0x3f) as u32) << 12) | (((b2 & 0x3f) as u32) << 6) | ((b3 & 0x3f)
                        as u32)));
                    if b0 == 0xf0 {
                        assert(((((b0 & 0x07) as u32) << 18) | (((b1 & 0x3f) as u32) << 12) | (((b2
                            & 0x3f) as u32) << 6) | ((b3 & 0x3f) as u32)) < 0x10000) by (bit_vector)
                            requires
                                b0 == 0xf0,
                                b1 < 0x90,
                                0x80 <= b1 && b1 <= 0xbf,
                                0x80 <= b2 && b2 <= 0xbf,
                                0x80 <= b3 && b3 <= 0xbf;
                    } else {
                        assert(b0 == 0xf4);
                        assert(((((b0 & 0x07) as u32) << 18) | (((b1 & 0x3f) as u32) << 12) | (((b2
                            & 0x3f) as u32) << 6) | ((b3 & 0x3f) as u32)) > 0x10ffff)
                            by (bit_vector)
                            requires
                                b0 == 0xf4,
                                b1 > 0x8f,
                                0x80 <= b1 && b1 <= 0xbf,
                                0x80 <= b2 && b2 <= 0xbf,
                                0x80 <= b3 && b3 <= 0xbf;
                    }
                }
            }
            return 0;
        }
    }
    proof {
        if valid_first_scalar(s) {
            // past 0xf7 no leading pattern matches; 0xf5 to 0xf7 would encode
            // a value beyond the last Unicode scalar
            assert(is_leading_byte_width_4(b0));
            assert(s.len() >= 4);
            let b1 = s[1];
            let b2 = s[2];
            let b3 = s[3];
            assert(decode_first_codepoint(s) == ((((b0 & 0x07) as u32) << 18) | (((b1 & 0x3f)
                as u32) << 12) | (((b2 & 0x3f) as u32) << 6) | ((b3 & 0x3f) as u32)));
            assert(((((b0 & 0x07) as u32) << 18) | (((b1 & 0x3f) as u32) << 12) | (((b2 & 0x3f)
                as u32) << 6) | ((b3 & 0x3f) as u32)) > 0x10ffff) by (bit_vector)
                requires 0xf5 <= b0 && b0 <= 0xf7;
        }
    }
    0
}

/// The length of the longest prefix of the buffer that is a concatenation of
/// valid whole-scalar encodings: everything before it is sound UTF-8, and no
/// valid scalar encoding starts at its end.
pub open spec fn spec_valid_len(s: Seq<u8>) -> nat
    decreases s.len(),
{
    if valid_first_scalar(s) {
        (length_of_first_scalar(s) + spec_valid_len(pop_first_scalar(s))) as nat
    } else {
        0
    }
}

/// The greedy valid-prefix length never passes the end of the buffer.
pub proof fn lemma_valid_len_bounds(s: Seq<u8>)
    ensures
        spec_valid_len(s) <= s.len(),
    decreases s.len(),
{
    if valid_first_scalar(s) {
        lemma_valid_len_bounds(pop_first_scalar(s));
    }
}

/// Two buffers that agree on their common prefix hold the same first scalar,
/// provided the shorter one still holds all of it.
pub proof fn lemma_first_scalar_prefix(s: Seq<u8>, t: Seq<u8>)
    requires
        valid_first_scalar(s),
        length_of_first_scalar(s) <= t.len(),
        forall|k: int| 0 <= k < s.len() && k < t.len() ==> s[k] == t[k],
    ensures
        valid_first_scalar(t),
        length_of_first_scalar(t) == length_of_first_scalar(s),
        decode_first_scalar(t) == decode_first_scalar(s),
{
    let w = length_of_first_scalar(s);
    assert(1 <= w <= 4);
    assert(forall|k: int| 0 <= k < w ==> s[k] == t[k]);
}

/// A whole buffer of valid UTF-8 is its own greedy valid prefix.
pub proof fn lemma_valid_utf8_valid_len(s: Seq<u8>)
    requires
        valid_utf8(s),
    ensures
        spec_valid_len(s) == s.len(),
    decreases s.len(),
{
    if s.len() > 0 {
        lemma_valid_utf8_valid_len(pop_first_scalar(s));
    }
}

/// The greedy valid prefix of a buffer is valid UTF-8.
pub proof fn lemma_valid_len_valid_prefix(s: Seq<u8>)
    ensures
        valid_utf8(s.take(spec_valid_len(s) as int)),
    decreases s.len(),
{
    if valid_first_scalar(s) {
        let w = length_of_first_scalar(s);
        let p = pop_first_scalar(s);
        lemma_valid_len_valid_prefix(p);
        lemma_valid_len_bounds(p);
        let vl = spec_valid_len(s) as int;
        let t = s.take(vl);
        lemma_first_scalar_prefix(s, t);
        assert(pop_first_scalar(t) =~= p.take(spec_valid_len(p) as int));
    } else {
        assert(s.take(0) =~= Seq::<u8>::empty());
    }
}

/// The length of the longest prefix of the buffer that is a concatenation of
/// valid whole-scalar encodings.
pub fn utf8_valid_len(v: &Vec<u8>) -> (r: usize)
    ensures
        r == spec_valid_len(v@),
        r <= v@.len(),
{
    let hlen = v.len();
    let mut i: usize = 0;
    proof {
        assert(v@.skip(0) =~= v@);
    }
    loop
        invariant
            hlen == v@.len(),
            i <= hlen,
            spec_valid_len(v@) == i + spec_valid_len(v@.skip(i as int)),
        decreases hlen - i,
    {
        if i == hlen {
            proof {
                assert(v@.skip(i as int) =~= Seq::<u8>::empty());
            }
            return i;
        }
        let w = scalar_width_at(v, i);
        if w == 0 {
            return i;
        }
        proof {
            let s = v@.skip(i as int);
            assert(spec_valid_len(s) == length_of_first_scalar(s) + spec_valid_len(
                pop_first_scalar(s)));
            assert(pop_first_scalar(s) =~= v@.skip((i + w) as int));
        }
        i += w;
    }
}


/// The precise outcome of one fold step, shared between the contract of
/// [`FoldText::fold_chunk`] and the laws proved about it: feeding chunk `c`
/// with `acc` bytes already folded and `held` bytes held back, under byte
/// bound `limit`.
///
/// The step is refused outright when the chunk is too small to complete a
/// held-back sequence, or when it would push the total past the bound.
pub open spec fn step_completes(held: Seq<u8>, c: Seq<u8>) -> bool {
    held.len() == 0 || held.len() + c.len() >= char_width_spec(held[0])
}

/// Whether the step stays within the byte bound.
pub open spec fn step_fits(acc: Seq<u8>, held: Seq<u8>, c: Seq<u8>, limit: int) -> bool {
    acc.len() + held.len() + c.len() <= limit
}

/// The tail left after folding all whole scalars of `held + c`.
pub open spec fn step_tail(held: Seq<u8>, c: Seq<u8>) -> Seq<u8> {
    let t = held + c;
    t.skip(spec_valid_len(t) as int)
}

/// Whether the tail of `held + c` may be held back for the next chunk.
pub open spec fn step_tail_ok(held: Seq<u8>, c: Seq<u8>) -> bool {
    step_tail(held, c).len() == 0 || is_partial_scalar(step_tail(held, c))
}

/// The accumulated bytes after a successful step.
pub open spec fn step_acc(acc: Seq<u8>, held: Seq<u8>, c: Seq<u8>) -> Seq<u8> {
    let t = held + c;
    acc + t.take(spec_valid_len(t) as int)
}

/// Accumulated state of folding one field's body chunks into text: the bytes
/// folded so far (always valid UTF-8), an optional held-back strict prefix of
/// a multi-byte sequence still awaiting its continuation bytes, and the byte
/// bound the fold must not exceed.
#[derive(Debug)]
pub struct FoldText {
    accum: Vec<u8>,
    held: Vec<u8>,
    limit: usize,
}

impl FoldText {
    /// The bytes folded so far.
    pub closed spec fn text_bytes(self) -> Seq<u8> {
        self.accum@
    }

    /// The held-back tail of a not-yet-complete multi-byte sequence.
    pub closed spec fn held_bytes(self) -> Seq<u8> {
        self.held@
    }

    /// The configured byte bound.
    pub closed spec fn limit_spec(self) -> int {
        self.limit as int
    }

    /// The folder's invariant: the folded bytes are valid UTF-8, what is held
    /// back is a strict prefix of one scalar encoding, and together they stay
    /// within the bound.
    pub open spec fn wf(self) -> bool {
        &&& valid_utf8(self.text_bytes())
        &&& (self.held_bytes().len() == 0 || is_partial_scalar(self.held_bytes()))
        &&& self.text_bytes().len() + self.held_bytes().len() <= self.limit_spec()
    }

    /// An empty folder with the default byte bound.
    pub fn new() -> (f: FoldText)
        ensures
            f.wf(),
            f.text_bytes().len() == 0,
            f.held_bytes().len() == 0,
            f.limit_spec() == DEFAULT_LIMIT as int,
    {
        FoldText { accum: Vec::new(), held: Vec::new(), limit: DEFAULT_LIMIT }
    }

    /// Replace the byte bound. The bound must still cover what has already
    /// been folded; ordinarily it is set before the first chunk arrives.
    pub fn set_limit(self, limit: usize) -> (f: FoldText)
        requires
            self.text_bytes().len() + self.held_bytes().len() <= limit,
        ensures
            f.text_bytes() == self.text_bytes(),
            f.held_bytes() == self.held_bytes(),
            f.limit_spec() == limit as int,
            self.wf() ==> f.wf(),
    {
        FoldText { limit, ..self }
    }

    /// Raise the byte bound to the soft maximum.
    pub fn limit_soft_max(self) -> (f: FoldText)
        requires
            self.text_bytes().len() + self.held_bytes().len() <= SOFT_MAX_LIMIT,
        ensures
            f.text_bytes() == self.text_bytes(),
            f.held_bytes() == self.held_bytes(),
            f.limit_spec() == SOFT_MAX_LIMIT as int,
            self.wf() ==> f.wf(),
    {
        FoldText { limit: SOFT_MAX_LIMIT, ..self }
    }

    /// The text folded so far, decoded.
    pub fn ref_text(&self) -> (r: String)
        requires
            self.wf(),
        ensures
            r@ == decode_utf8(self.text_bytes()),
    {
        let copy = clone_bytes(&self.accum);
        string_from_utf8(copy)
    }

    /// Fold the next body chunk into the text.
    ///
    /// A held-back multi-byte sequence must be completed by the very next
    /// chunk; a chunk too small for that is refused with a UTF-8 error. A
    /// chunk that would push the total past the byte bound is refused with a
    /// limit error, never silently truncated. Otherwise every whole scalar
    /// of the held-back bytes plus the chunk is appended, a trailing strict
    /// prefix of one scalar is held back for the next chunk, and anything
    /// else is a UTF-8 error. On any error the folder is left unchanged.
    ///
    /// Only a tail that really is a strict prefix of one valid scalar
    /// encoding is held back. A tail that merely falls within the last
    /// three bytes but can never complete — a stray continuation byte, say
    /// — is refused at this chunk rather than at the next one; either way
    /// exactly the same bodies are rejected, just one chunk apart.
    pub fn fold_chunk(&mut self, chunk: Vec<u8>) -> (r: Result<(), Error>)
        requires
            old(self).wf(),
        ensures
            final(self).wf(),
            final(self).limit_spec() == old(self).limit_spec(),
            ({
                let acc = old(self).text_bytes();
                let held = old(self).held_bytes();
                if !step_completes(held, chunk@) {
                    &&& (r matches Err(e) && e.kind == ErrorKind::Utf8)
                    &&& *final(self) == *old(self)
                } else if !step_fits(acc, held, chunk@, old(self).limit_spec()) {
                    &&& (r matches Err(e) && e.kind == ErrorKind::Limit)
                    &&& *final(self) == *old(self)
                } else if step_tail_ok(held, chunk@) {
                    &&& r is Ok
                    &&& final(self).text_bytes() == step_acc(acc, held, chunk@)
                    &&& final(self).held_bytes() == step_tail(held, chunk@)
                } else {
                    &&& (r matches Err(e) && e.kind == ErrorKind::Utf8)
                    &&& *final(self) == *old(self)
                }
            }),
    {
        let clen = chunk.len();
        if self.held.len() > 0 {
            let w = utf8_char_width(self.held[0]);
            assert(self.held@.len() < w);
            if clen < w - self.held.len() {
                return Err(Error::new(
                    ErrorKind::Utf8,
                    "chunk too small to finish decoding the pending UTF-8 sequence",
                ));
            }
        }
        let used = self.accum.len() + self.held.len();
        if clen > self.limit - used {
            return Err(Error::new(ErrorKind::Limit, "text field exceeded its byte limit"));
        }
        let mut t: Vec<u8> = Vec::new();
        t.extend_from_slice(self.held.as_slice());
        let mut c = chunk;
        t.append(&mut c);
        let ghost t0 = t@;
        proof {
            assert(t0 == old(self).held_bytes() + chunk@);
        }
        let vl = utf8_valid_len(&t);
        let rest = t.split_off(vl);
        proof {
            assert(t@ =~= t0.take(spec_valid_len(t0) as int));
            assert(rest@ =~= t0.skip(spec_valid_len(t0) as int));
        }
        if rest.len() == 0 || is_partial_scalar_exec(&rest) {
            proof {
                lemma_valid_len_valid_prefix(t0);
                valid_utf8_concat(self.accum@, t@);
            }
            self.accum.append(&mut t);
            self.held = rest;
            Ok(())
        } else {
            Err(Error::new(ErrorKind::Utf8, "invalid UTF-8 byte sequence in text field"))
        }
    }

    /// Take the folded text, leaving an empty folder behind.
    ///
    /// A held-back multi-byte sequence that was never completed means the
    /// body ended in the middle of a character: a UTF-8 error, never a
    /// silently dropped or replaced tail.
    pub fn take_string(&mut self) -> (r: Result<String, Error>)
        requires
            old(self).wf(),
        ensures
            final(self).wf(),
            final(self).limit_spec() == old(self).limit_spec(),
            if old(self).held_bytes().len() == 0 {
                &&& (r matches Ok(s) && s@ == decode_utf8(old(self).text_bytes()))
                &&& final(self).text_bytes().len() == 0
                &&& final(self).held_bytes().len() == 0
            } else {
                &&& (r matches Err(e) && e.kind == ErrorKind::Utf8)
                &&& *final(self) == *old(self)
            },
    {
        if self.held.len() > 0 {
            return Err(Error::new(
                ErrorKind::Utf8,
                "stream ended with incomplete UTF-8 sequence",
            ));
        }
        let text = crate::helpers::replace_default(&mut self.accum);
        Ok(string_from_utf8(text))
    }
}

/// A by-element copy of a byte buffer.
fn clone_bytes(v: &Vec<u8>) -> (r: Vec<u8>)
    ensures
        r@ == v@,
{
    let mut r: Vec<u8> = Vec::new();
    let mut i: usize = 0;
    while i < v.len()
        invariant
            i <= v@.len(),
            r@ == v@.take(i as int),
        decreases v@.len() - i,
    {
        r.push(v[i]);
        proof {
            assert(v@.take(i + 1int) =~= v@.take(i as int).push(v@[i as int]));
        }
        i += 1;
    }
    proof {
        assert(v@.take(v@.len() as int) =~= v@);
    }
    r
}


/// The byte-level shape of a valid scalar encoding: the width table and the
/// second-byte constraints are exactly what validity demands.
pub proof fn lemma_valid_scalar_bytes(s: Seq<u8>)
    requires
        valid_first_scalar(s),
    ensures
        char_width_spec(s[0]) == length_of_first_scalar(s),
        length_of_first_scalar(s) <= s.len(),
        length_of_first_scalar(s) >= 2 ==> second_byte_ok(s[0], s[1]),
        length_of_first_scalar(s) >= 3 ==> is_continuation_byte(s[2]),
        length_of_first_scalar(s) >= 4 ==> is_continuation_byte(s[3]),
{
    let b0 = s[0];
    if is_leading_byte_width_1(b0) {
    } else if is_leading_byte_width_2(b0) {
        let b1 = s[1];
        assert(b0 >= 0xc2) by (bit_vector)
            requires
                0xc0 <= b0 && b0 <= 0xdf,
                0x80 <= b1 && b1 <= 0xbf,
                ((((b0 & 0x1f) as u32) << 6) | ((b1 & 0x3f) as u32)) >= 0x80;
    } else if is_leading_byte_width_3(b0) {
        let b1 = s[1];
        let b2 = s[2];
        assert((b0 == 0xe0 ==> b1 >= 0xa0) && (b0 == 0xed ==> b1 <= 0x9f)) by (bit_vector)
            requires
                0xe0 <= b0 && b0 <= 0xef,
                0x80 <= b1 && b1 <= 0xbf,
                0x80 <= b2 && b2 <= 0xbf,
                ((((b0 & 0x0f) as u32) << 12) | (((b1 & 0x3f) as u32) << 6) | ((b2 & 0x3f) as u32))
                    >= 0x800,
                !(0xd800 <= ((((b0 & 0x0f) as u32) << 12) | (((b1 & 0x3f) as u32) << 6) | ((b2
                    & 0x3f) as u32)) && ((((b0 & 0x0f) as u32) << 12) | (((b1 & 0x3f) as u32) << 6)
                    | ((b2 & 0x3f) as u32)) <= 0xdfff);
    } else {
        let b1 = s[1];
        let b2 = s[2];
        let b3 = s[3];
        assert(b0 <= 0xf4 && (b0 == 0xf0 ==> b1 >= 0x90) && (b0 == 0xf4 ==> b1 <= 0x8f))
            by (bit_vector)
            requires
                0xf0 <= b0 && b0 <= 0xf7,
                0x80 <= b1 && b1 <= 0xbf,
                0x80 <= b2 && b2 <= 0xbf,
                0x80 <= b3 && b3 <= 0xbf,
                0x10000 <= ((((b0 & 0x07) as u32) << 18) | (((b1 & 0x3f) as u32) << 12) | (((b2
                    & 0x3f) as u32) << 6) | ((b3 & 0x3f) as u32)),
                ((((b0 & 0x07) as u32) << 18) | (((b1 & 0x3f) as u32) << 12) | (((b2 & 0x3f)
                    as u32) << 6) | ((b3 & 0x3f) as u32)) <= 0x10ffff;
    }
}

/// A strict prefix of a multi-byte sequence is not itself a whole scalar.
pub proof fn lemma_partial_not_valid(q: Seq<u8>)
    requires
        is_partial_scalar(q),
    ensures
        !valid_first_scalar(q),
{
}

/// Appending bytes that do not start a scalar to a fully valid buffer leaves
/// the greedy valid-prefix length exactly at the buffer's end.
pub proof fn lemma_valid_len_concat_valid(p: Seq<u8>, q: Seq<u8>)
    requires
        valid_utf8(p),
        q.len() == 0 || !valid_first_scalar(q),
    ensures
        spec_valid_len(p + q) == p.len(),
    decreases p.len(),
{
    if p.len() == 0 {
        assert(p + q =~= q);
    } else {
        let w = length_of_first_scalar(p);
        lemma_valid_scalar_bytes(p);
        lemma_first_scalar_prefix(p, p + q);
        let rest = pop_first_scalar(p);
        lemma_valid_len_concat_valid(rest, q);
        assert(pop_first_scalar(p + q) =~= rest + q);
    }
}

/// How a split point inside a valid UTF-8 body relates to the greedy valid
/// prefix of the first piece: the cut leaves behind at most a strict prefix
/// of one scalar, and the remainder of the body picks up exactly there.
pub proof fn lemma_fold_split(b: Seq<u8>, i: int)
    requires
        valid_utf8(b),
        0 <= i <= b.len(),
    ensures
        ({
            let t = b.take(i);
            let vl = spec_valid_len(t) as int;
            &&& vl <= i
            &&& t.take(vl) == b.take(vl)
            &&& t.skip(vl) == b.subrange(vl, i)
            &&& (i - vl > 0 ==> is_partial_scalar(t.skip(vl)))
            &&& valid_utf8(b.skip(vl))
            &&& (i - vl > 0 ==> char_width_spec(b[vl]) <= b.len() - vl)
        }),
    decreases b.len(),
{
    let t = b.take(i);
    let vl = spec_valid_len(t) as int;
    lemma_valid_len_bounds(t);
    if i == 0 || b.len() == 0 {
        assert(t =~= Seq::<u8>::empty());
        assert(t.take(0) =~= b.take(0));
        assert(t.skip(0) =~= b.subrange(0, i));
        assert(b.skip(0) =~= b);
    } else {
        let w = length_of_first_scalar(b);
        lemma_valid_scalar_bytes(b);
        if i < w {
            // the cut lands inside the first scalar: nothing whole yet
            assert(forall|k: int| 0 <= k < t.len() ==> t[k] == b[k]);
            if valid_first_scalar(t) {
                assert(length_of_first_scalar(t) == w);
                assert(false);
            }
            assert(vl == 0);
            assert(t.take(0) =~= b.take(0));
            assert(t.skip(0) =~= b.subrange(0, i));
            assert(b.skip(0) =~= b);
            assert(is_partial_scalar(t));
        } else {
            lemma_first_scalar_prefix(b, t);
            let b2 = pop_first_scalar(b);
            lemma_fold_split(b2, i - w);
            let t2 = b2.take(i - w);
            let vl2 = spec_valid_len(t2) as int;
            assert(pop_first_scalar(t) =~= t2);
            assert(vl == w + vl2);
            let vlw = vl2 + w;
            assert(t.take(vlw) =~= b.take(vlw)) by {
                assert(t2.take(vl2) == b2.take(vl2));
                assert(forall|k: int| 0 <= k < vlw ==> t.take(vlw)[k] == b.take(vlw)[k]);
            }
            assert(t.skip(vlw) =~= b.subrange(vlw, i)) by {
                assert(t2.skip(vl2) == b2.subrange(vl2, i - w));
                assert(forall|k: int| 0 <= k < i - vlw ==> t.skip(vlw)[k] == t2.skip(vl2)[k]);
                assert(forall|k: int| 0 <= k < i - vlw ==> b.subrange(vlw, i)[k]
                    == b2.subrange(vl2, i - w)[k]);
            }
            assert(b.skip(vlw) =~= b2.skip(vl2));
            if i - vl > 0 {
                assert(b[vlw] == b2[vl2]);
            }
        }
    }
}

/// UTF-8 round trip (law): a valid UTF-8 body within the byte bound, split
/// into two chunks at any byte offset — including in the middle of a
/// multi-byte sequence — folds through [`FoldText::fold_chunk`] without
/// error, ends with nothing held back, and accumulates exactly the original
/// bytes; so the string that [`FoldText::take_string`] then returns decodes
/// to exactly the characters that were encoded.
pub proof fn lemma_utf8_round_trip(b: Seq<u8>, i: int, limit: int)
    requires
        valid_utf8(b),
        0 <= i <= b.len(),
        b.len() <= limit,
    ensures
        ({
            let c1 = b.take(i);
            let c2 = b.skip(i);
            let e = Seq::<u8>::empty();
            let a1 = step_acc(e, e, c1);
            let h1 = step_tail(e, c1);
            &&& step_completes(e, c1) && step_fits(e, e, c1, limit) && step_tail_ok(e, c1)
            &&& step_completes(h1, c2) && step_fits(a1, h1, c2, limit) && step_tail_ok(h1, c2)
            &&& step_tail(h1, c2).len() == 0
            &&& step_acc(a1, h1, c2) == b
        }),
        forall|s: Seq<char>| encode_utf8(s) == b ==> decode_utf8(b) == s,
{
    let c1 = b.take(i);
    let c2 = b.skip(i);
    let e = Seq::<u8>::empty();
    assert(e + c1 =~= c1);
    lemma_fold_split(b, i);
    let vl = spec_valid_len(c1) as int;
    let a1 = step_acc(e, e, c1);
    let h1 = step_tail(e, c1);
    assert(a1 =~= b.take(vl));
    assert(h1 == b.subrange(vl, i));
    assert(h1 + c2 =~= b.skip(vl));
    lemma_valid_utf8_valid_len(b.skip(vl));
    assert(step_tail(h1, c2) =~= Seq::<u8>::empty());
    assert(step_acc(a1, h1, c2) =~= b.take(vl) + b.skip(vl));
    assert(b.take(vl) + b.skip(vl) =~= b);
    if h1.len() > 0 {
        assert(h1[0] == b[vl]);
        assert(step_completes(h1, c2));
    }
    assert forall|s: Seq<char>| encode_utf8(s) == b implies decode_utf8(b) == s by {
        encode_utf8_decode_utf8(s);
    }
}

/// Limit enforcement (law): a fresh fold refuses a body that exceeds the
/// byte bound by even one byte — [`FoldText::fold_chunk`] must return the
/// limit error — and a well-formed folder never holds more than the bound,
/// so no oversized string is ever returned.
pub proof fn lemma_limit_enforced(f: FoldText, c: Seq<u8>)
    requires
        f.wf(),
    ensures
        f.text_bytes().len() == 0 && f.held_bytes().len() == 0 && c.len() > f.limit_spec() ==> {
            &&& step_completes(f.held_bytes(), c)
            &&& !step_fits(f.text_bytes(), f.held_bytes(), c, f.limit_spec())
        },
        encode_utf8(decode_utf8(f.text_bytes())) == f.text_bytes(),
        encode_utf8(decode_utf8(f.text_bytes())).len() <= f.limit_spec(),
{
    decode_utf8_encode_utf8(f.text_bytes());
}

/// Truncated-sequence rejection (law): a body that ends in the middle of a
/// multi-byte sequence folds cleanly but leaves the incomplete tail held
/// back, so [`FoldText::take_string`] must return the UTF-8 error rather
/// than silently dropping or replacing the tail.
pub proof fn lemma_truncated_tail_rejected(p: Seq<u8>, q: Seq<u8>, limit: int)
    requires
        valid_utf8(p),
        is_partial_scalar(q),
        p.len() + q.len() <= limit,
    ensures
        ({
            let e = Seq::<u8>::empty();
            let body = p + q;
            &&& step_completes(e, body) && step_fits(e, e, body, limit) && step_tail_ok(e, body)
            &&& step_tail(e, body) == q
            &&& step_tail(e, body).len() > 0
        }),
{
    let e = Seq::<u8>::empty();
    let body = p + q;
    assert(e + body =~= body);
    lemma_partial_not_valid(q);
    lemma_valid_len_concat_valid(p, q);
    assert(step_tail(e, body) =~= q);
}


/// The result of reading a field's body to text: the field's headers, and
/// the decoded string.
#[derive(Debug, Clone, PartialEq, Eq)]
pub struct TextField {
    /// The headers of the field the text came from.
    pub headers: FieldHeaders,
    /// The decoded text of the field body.
    pub text: String,
}

/// A poll-driven reader that folds one field's body into a string,
/// enforcing the byte bound and recombining UTF-8 sequences split across
/// chunk edges. When the fold completes, the field handle is released so
/// the parent stream can move to the next field.
#[derive(Debug)]
pub struct ReadTextField {
    data: Option<FieldData>,
    fold: FoldText,
    /// The headers of the field being read.
    pub headers: FieldHeaders,
}

/// Begin reading the body of the field behind `data` as text, under the
/// default byte bound.
pub fn read_text(headers: FieldHeaders, data: FieldData) -> (r: ReadTextField)
    ensures
        r.wf(),
        r.is_live(),
        r.headers_spec() == headers,
        r.fold_spec().text_bytes().len() == 0,
        r.fold_spec().held_bytes().len() == 0,
        r.fold_spec().limit_spec() == DEFAULT_LIMIT as int,
{
    ReadTextField { data: Some(data), fold: FoldText::new(), headers }
}

impl ReadTextField {
    /// The text folder inside this reader.
    pub closed spec fn fold_spec(self) -> FoldText {
        self.fold
    }

    /// The headers of the field being read.
    pub closed spec fn headers_spec(self) -> FieldHeaders {
        self.headers
    }

    /// Whether the reader still holds the field's body handle: it does
    /// until the fold completes, when the handle is released to the parent
    /// stream.
    pub closed spec fn is_live(self) -> bool {
        self.data is Some
    }

    /// The reader's invariant.
    pub open spec fn wf(self) -> bool {
        self.fold_spec().wf()
    }

    /// Replace the byte bound for the collected text. The bound must still
    /// cover what has already been folded; ordinarily it is set before the
    /// first poll.
    pub fn set_limit(self, limit: usize) -> (r: ReadTextField)
        requires
            self.fold_spec().text_bytes().len() + self.fold_spec().held_bytes().len() <= limit,
        ensures
            r.fold_spec().text_bytes() == self.fold_spec().text_bytes(),
            r.fold_spec().held_bytes() == self.fold_spec().held_bytes(),
            r.fold_spec().limit_spec() == limit as int,
            r.is_live() == self.is_live(),
            r.headers_spec() == self.headers_spec(),
            self.wf() ==> r.wf(),
    {
        ReadTextField { fold: self.fold.set_limit(limit), ..self }
    }

    /// Raise the byte bound to the soft maximum.
    pub fn limit_soft_max(self) -> (r: ReadTextField)
        requires
            self.fold_spec().text_bytes().len() + self.fold_spec().held_bytes().len()
                <= SOFT_MAX_LIMIT,
        ensures
            r.fold_spec().text_bytes() == self.fold_spec().text_bytes(),
            r.fold_spec().held_bytes() == self.fold_spec().held_bytes(),
            r.fold_spec().limit_spec() == SOFT_MAX_LIMIT as int,
            r.is_live() == self.is_live(),
            r.headers_spec() == self.headers_spec(),
            self.wf() ==> r.wf(),
    {
        ReadTextField { fold: self.fold.limit_soft_max(), ..self }
    }

    /// The text collected so far, decoded.
    pub fn ref_text(&self) -> (r: String)
        requires
            self.wf(),
        ensures
            r@ == decode_utf8(self.fold_spec().text_bytes()),
    {
        self.fold.ref_text()
    }

    /// Destructure this reader, taking the field's body handle back; it is
    /// gone once the field was read to completion.
    pub fn into_data(self) -> (r: Option<FieldData>)
        ensures
            r is Some <==> self.is_live(),
    {
        self.data
    }

    /// Take the text collected so far. A held-back multi-byte sequence that
    /// was never completed means the body ended in the middle of a
    /// character: a UTF-8 error.
    pub fn try_take_string(&mut self) -> (r: Result<String, Error>)
        requires
            old(self).wf(),
        ensures
            final(self).wf(),
            final(self).is_live() == old(self).is_live(),
            final(self).headers_spec() == old(self).headers_spec(),
            if old(self).fold_spec().held_bytes().len() == 0 {
                &&& (r matches Ok(s) && s@ == decode_utf8(old(self).fold_spec().text_bytes()))
                &&& final(self).fold_spec().text_bytes().len() == 0
            } else {
                &&& (r matches Err(e) && e.kind == ErrorKind::Utf8)
                &&& final(self).fold_spec() == old(self).fold_spec()
            },
    {
        self.fold.take_string()
    }

    /// Drive the fold: pull body chunks from this field through the parent
    /// stream and fold each into the text, until the body has been read to
    /// the boundary.
    ///
    /// On completion the collected text is exactly the decoded field body —
    /// what the folder already held plus every body byte the scanner
    /// yielded meanwhile — the field handle is released, and the byte
    /// encoding of the text never exceeds the configured bound. A fold or
    /// decode failure is returned with the field handle kept, so the caller
    /// may still abandon it explicitly.
    pub fn poll(&mut self, ms: &mut MultipartStream) -> (r: Result<Async<TextField>, Error>)
        requires
            old(self).wf(),
            old(self).is_live(),
            old(ms).wf(),
        ensures
            final(self).wf(),
            final(ms).wf(),
            final(self).headers_spec() == old(self).headers_spec(),
            final(ms).finished_spec() == old(ms).finished_spec(),
            match r {
                Ok(Async::Ready(tf)) => {
                    &&& tf.headers.name == old(self).headers_spec().name
                    &&& tf.headers.filename == old(self).headers_spec().filename
                    &&& tf.headers.content_type == old(self).headers_spec().content_type
                    &&& tf.headers.other@ == old(self).headers_spec().other@
                    &&& !final(self).is_live()
                    &&& !final(ms).in_flight_spec()
                    &&& !final(ms).waiting_spec()
                    &&& encode_utf8(tf.text@).len() <= old(self).fold_spec().limit_spec()
                    &&& (old(ms).in_flight_spec() ==> {
                        let pre_em = old(ms).multi_spec().finder_spec().emitted_bytes();
                        let post_em = final(ms).multi_spec().finder_spec().emitted_bytes();
                        &&& pre_em.len() <= post_em.len()
                        &&& post_em.take(pre_em.len() as int) == pre_em
                        &&& encode_utf8(tf.text@) == old(self).fold_spec().text_bytes() + old(
                            self,
                        ).fold_spec().held_bytes() + post_em.skip(pre_em.len() as int)
                    })
                    &&& (!old(ms).in_flight_spec() ==> encode_utf8(tf.text@) == old(
                        self,
                    ).fold_spec().text_bytes() && final(ms).multi_spec() == old(ms).multi_spec())
                },
                Ok(Async::NotReady) => {
                    &&& final(self).is_live()
                    &&& final(ms).in_flight_spec() == old(ms).in_flight_spec()
                    &&& old(ms).in_flight_spec()
                    &&& !final(ms).multi_spec().finder_spec().is_closed()
                    // suspension is owed only while the field's delimiter is
                    // not yet among the buffered bytes
                    &&& forall|j: int| !crate::search::occurs_at(
                        old(ms).multi_spec().finder_spec().buf_bytes(),
                        old(ms).multi_spec().finder_spec().delim_bytes(),
                        j,
                    )
                },
                Err(e) => {
                    &&& final(self).is_live()
                    &&& (e.kind == ErrorKind::Utf8 || e.kind == ErrorKind::Limit || e.kind
                        == ErrorKind::Boundary)
                    &&& (e.kind == ErrorKind::Boundary ==> final(ms).multi_spec().finder_spec().is_closed())
                },
            },
    {
        let ghost pre_em = ms.multi_spec().finder_spec().emitted_bytes();
        let ghost pre_text = self.fold.text_bytes();
        let ghost pre_held = self.fold.held_bytes();
        loop
            invariant
                self.wf(),
                self.is_live(),
                ms.wf(),
                self.headers == old(self).headers,
                self.fold_spec().limit_spec() == old(self).fold_spec().limit_spec(),
                ms.in_flight_spec() == old(ms).in_flight_spec(),
                ms.waiting_spec() == old(ms).waiting_spec(),
                ms.finished_spec() == old(ms).finished_spec(),
                pre_em == old(ms).multi_spec().finder_spec().emitted_bytes(),
                pre_text == old(self).fold_spec().text_bytes(),
                pre_held == old(self).fold_spec().held_bytes(),
                old(ms).in_flight_spec() ==> {
                    let em = ms.multi_spec().finder_spec().emitted_bytes();
                    &&& pre_em.len() <= em.len()
                    &&& em.take(pre_em.len() as int) == pre_em
                    &&& self.fold_spec().text_bytes() + self.fold_spec().held_bytes() == pre_text
                        + pre_held + em.skip(pre_em.len() as int)
                    &&& ms.multi_spec().finder_spec().fed_field() == old(
                        ms,
                    ).multi_spec().finder_spec().fed_field()
                    &&& ms.multi_spec().finder_spec().delim_bytes() == old(
                        ms,
                    ).multi_spec().finder_spec().delim_bytes()
                },
                !old(ms).in_flight_spec() ==> *ms == *old(ms) && self.fold_spec() == old(
                    self,
                ).fold_spec(),
            decreases ms.multi_spec().finder_spec().buf_bytes().len(),
        {
            let step = match &self.data {
                Some(d) => d.poll(ms),
                None => {
                    proof {
                        assert(false);
                    }
                    Ok(Async::Ready(None))
                },
            };
            match step {
                Ok(Async::Ready(Some(c))) => {
                    let ghost cb = c@;
                    let ghost acc0 = self.fold_spec().text_bytes();
                    let ghost held0 = self.fold_spec().held_bytes();
                    match self.fold.fold_chunk(c) {
                        Ok(()) => {
                            proof {
                                let t = held0 + cb;
                                let vl = spec_valid_len(t) as int;
                                lemma_valid_len_bounds(t);
                                assert(t.take(vl) + t.skip(vl) =~= t);
                                assert(step_acc(acc0, held0, cb) + step_tail(held0, cb) =~= acc0
                                    + held0 + cb);
                                let em = ms.multi_spec().finder_spec().emitted_bytes();
                                assert(em.take(pre_em.len() as int) =~= pre_em);
                                assert(self.fold_spec().text_bytes()
                                    + self.fold_spec().held_bytes() =~= pre_text + pre_held
                                    + em.skip(pre_em.len() as int));
                            }
                        },
                        Err(e) => {
                            return Err(e);
                        },
                    }
                },
                Ok(Async::Ready(None)) => {
                    let text = match self.fold.take_string() {
                        Ok(t) => t,
                        Err(e) => {
                            return Err(e);
                        },
                    };
                    let handle = crate::helpers::replace_default(&mut self.data);
                    match handle {
                        Some(fd) => {
                            let _woke = fd.release(ms);
                        },
                        None => {},
                    }
                    proof {
                        decode_utf8_encode_utf8(
                            old(self).fold_spec().text_bytes() + old(
                                self,
                            ).fold_spec().held_bytes() + ms.multi_spec().finder_spec(
                            ).emitted_bytes().skip(pre_em.len() as int),
                        );
                    }
                    return Ok(Async::Ready(TextField { headers: self.headers.duplicate(), text }));
                },
                Ok(Async::NotReady) => {
                    proof {
                        if old(ms).in_flight_spec() {
                            lemma_no_buffered_delimiter(
                                ms.multi_spec().finder_spec(),
                                old(ms).multi_spec().finder_spec(),
                            );
                        }
                    }
                    return Ok(Async::NotReady);
                },
                Err(e) => {
                    return Err(e);
                },
            }
        }
    }
}


/// While the scanner holds no more than a partial-delimiter tail, the
/// buffered bytes it started the field with cannot have contained a full
/// delimiter occurrence: every such occurrence would either sit in a region
/// already ruled out byte by byte, or still be fully buffered.
proof fn lemma_no_buffered_delimiter(
    cur: crate::server::boundary::BoundaryFinder,
    pre: crate::server::boundary::BoundaryFinder,
)
    requires
        cur.wf(),
        cur.phase_spec() == ScanPhase::Scanning,
        cur.fed_field() == pre.fed_field(),
        cur.delim_bytes() == pre.delim_bytes(),
        cur.buf_bytes().len() < cur.delim_bytes().len(),
        pre.emitted_bytes().len() <= cur.emitted_bytes().len(),
    ensures
        forall|j: int| !crate::search::occurs_at(pre.buf_bytes(), pre.delim_bytes(), j),
{
    let f = cur.fed_field();
    let d = cur.delim_bytes();
    let e0 = pre.emitted_bytes().len() as int;
    let ec = cur.emitted_bytes().len() as int;
    assert forall|j: int| !crate::search::occurs_at(pre.buf_bytes(), pre.delim_bytes(), j) by {
        if crate::search::occurs_at(pre.buf_bytes(), pre.delim_bytes(), j) {
            let s = e0 + j;
            assert(f.len() == e0 + pre.buf_bytes().len());
            assert forall|k: int| 0 <= k < d.len() implies f[s + k] == d[k] by {
                assert(f[s + k] == pre.buf_bytes()[j + k]);
            }
            if s < ec {
                assert(crate::search::mismatch_within(f, d, s));
                let k = choose|k: int| 0 <= k < d.len() && s + k < f.len() && f[s + k] != d[k];
                assert(f[s + k] == d[k]);
            } else {
                // the whole occurrence would still be buffered, but the
                // buffer is shorter than the delimiter
                assert(f.len() == ec + cur.buf_bytes().len());
                assert(s + d.len() <= f.len());
                assert(s - ec + d.len() <= cur.buf_bytes().len());
            }
        }
    }
}

} // verus!
