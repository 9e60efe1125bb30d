//! Shared vocabulary of the non-blocking state machines: poll results, and a
//! few small utilities.

use vstd::prelude::*;
use vstd::utf8::*;

verus! {

broadcast use vstd::seq_lib::group_seq_lib_default, vstd::seq::group_seq_axioms;

/// The outcome of one non-blocking advance step: either a value, or a signal
/// that the machine cannot make progress until it is given more input (or, for
/// the field stream, until an outstanding field handle is released).
#[derive(Debug, Clone, Copy, PartialEq, Eq)]
pub enum Async<T> {
    /// The step completed with this value.
    Ready(T),
    /// The step cannot complete yet; retry after supplying what is missing.
    NotReady,
}

/// A fallible non-blocking step.
pub type Poll<T, E> = Result<Async<T>, E>;

/// A fallible non-blocking step of a sequence that can also end.
pub type PollOpt<T, E> = Poll<Option<T>, E>;

/// Wrap a completed value as a successful poll result.
pub fn ready<T, E>(val: T) -> (r: Poll<T, E>)
    ensures
        r == Poll::<T, E>::Ok(Async::Ready(val)),
{
    Ok(Async::Ready(val))
}

/// The "cannot make progress yet" poll result.
pub fn not_ready<T, E>() -> (r: Poll<T, E>)
    ensures
        r == Poll::<T, E>::Ok(Async::<T>::NotReady),
{
    Ok(Async::NotReady)
}

/// Take the value out of a place, leaving the type's default value behind.
pub fn replace_default<T: Default>(dest: &mut T) -> (r: T)
    ensures
        r == *old(dest),
        call_ensures(T::default, (), *final(dest)),
{
    let mut slot = T::default();
    core::mem::swap(dest, &mut slot);
    slot
}

/// How [`show_bytes`] renders one byte: printable ASCII stands for itself,
/// anything else becomes a `\xNN` escape with upper-case hex digits.
pub open spec fn show_byte_spec(b: u8) -> Seq<char> {
    if 0x20 <= b && b <= 0x7e {
        seq![b as char]
    } else {
        seq!['\\', 'x', hex_digit_spec(b / 16), hex_digit_spec(b % 16)]
    }
}

/// The upper-case hexadecimal digit for a value below 16.
pub open spec fn hex_digit_spec(v: u8) -> char
    recommends
        v < 16,
{
    if v < 10 {
        (v + 0x30) as char
    } else {
        (v + 0x37) as char
    }
}

/// How [`show_bytes`] renders a whole byte string.
pub open spec fn show_bytes_spec(s: Seq<u8>) -> Seq<char>
    decreases s.len(),
{
    if s.len() == 0 {
        Seq::empty()
    } else {
        show_byte_spec(s[0]) + show_bytes_spec(s.drop_first())
    }
}

/// A byte within the ASCII range decodes, as UTF-8, to itself.
proof fn lemma_ascii_byte_decodes(s: Seq<u8>)
    requires
        forall|i: int| 0 <= i < s.len() ==> s[i] < 0x80,
    ensures
        valid_utf8(s),
        decode_utf8(s) == s.map_values(|b: u8| b as char),
    decreases s.len(),
{
    if s.len() > 0 {
        assert(is_leading_byte_width_1(s[0]));
        assert(valid_first_scalar(s));
        assert(length_of_first_scalar(s) == 1);
        lemma_ascii_byte_decodes(s.subrange(1, s.len() as int));
        assert(pop_first_scalar(s) == s.subrange(1, s.len() as int));
        assert(decode_first_scalar(s) == leading_bits_width_1(s[0]));
        let b = s[0];
        assert(b & 0x7f == b) by (bit_vector)
            requires b < 0x80;
        assert(decode_utf8(s) =~= s.map_values(|b: u8| b as char));
    } else {
        assert(decode_utf8(s) =~= s.map_values(|b: u8| b as char));
    }
}

/// The upper-case hexadecimal digit for a value below 16.
fn hex_digit(v: u8) -> (c: u8)
    requires
        v < 16,
    ensures
        c as char == hex_digit_spec(v),
        c < 0x80,
    {
    if v < 10 {
        v + 0x30
    } else {
        v + 0x37
    }
}

/// Render a byte string for a human reader: printable ASCII bytes stand for
/// themselves and every other byte becomes a `\xNN` hex escape.
pub fn show_bytes(bytes: &Vec<u8>) -> (r: String)
    ensures
        r@ == show_bytes_spec(bytes@),
{
    let mut out: Vec<u8> = Vec::new();
    let mut i: usize = 0;
    while i < bytes.len()
        invariant
            i <= bytes@.len(),
            forall|j: int| 0 <= j < out@.len() ==> out@[j] < 0x80,
            out@.map_values(|b: u8| b as char) == show_bytes_spec(bytes@.take(i as int)),
        decreases bytes@.len() - i,
    {
        let b = bytes[i];
        if 0x20 <= b && b <= 0x7e {
            out.push(b);
        } else {
            out.push(0x5c);
            out.push(0x78);
            out.push(hex_digit(b / 16));
            out.push(hex_digit(b % 16));
        }
        proof {
            let pre = bytes@.take(i as int);
            let now = bytes@.take(i + 1int);
            assert(now.drop_last() =~= pre);
            lemma_show_bytes_snoc(now);
            assert(now.last() == b);
            assert(out@.map_values(|x: u8| x as char) =~= show_bytes_spec(now));
        }
        i += 1;
    }
    proof {
        assert(bytes@.take(bytes@.len() as int) =~= bytes@);
        lemma_ascii_byte_decodes(out@);
    }
    crate::server::text::string_from_utf8(out)
}

/// Rendering a byte string renders its last byte after the rest.
proof fn lemma_show_bytes_snoc(s: Seq<u8>)
    requires
        s.len() > 0,
    ensures
        show_bytes_spec(s) == show_bytes_spec(s.drop_last()) + show_byte_spec(s.last()),
    decreases s.len(),
{
    if s.len() == 1 {
        assert(s.drop_first() =~= Seq::<u8>::empty());
        assert(s.drop_last() =~= Seq::<u8>::empty());
        assert(show_bytes_spec(s) =~= show_bytes_spec(s.drop_last()) + show_byte_spec(s.last()));
    } else {
        lemma_show_bytes_snoc(s.drop_first());
        assert(s.drop_first().drop_last() =~= s.drop_last().drop_first());
        assert(s.drop_first().last() == s.last());
        assert(s.drop_last()[0] == s[0]);
        assert(show_bytes_spec(s) =~= show_bytes_spec(s.drop_last()) + show_byte_spec(s.last()));
    }
}

} // verus!
