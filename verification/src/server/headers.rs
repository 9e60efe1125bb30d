//! Reading and parsing one field's header block: the lines between a
//! boundary delimiter and the empty line that separates headers from the
//! field body. A `Content-Disposition: form-data; name="..."` line is
//! mandatory; a `Content-Type` is optional; any other header line is kept
//! verbatim.

use vstd::prelude::*;
use vstd::utf8::{valid_utf8, decode_utf8};
use crate::error::{Error, ErrorKind};
use crate::helpers::Async;
use crate::search::{occurs_at, find_first, is_first_occ, lemma_is_first_occ_unique};
use crate::server::boundary::{BoundaryFinder, ScanPhase};
use crate::server::text::utf8_valid_len;

verus! {

broadcast use vstd::seq_lib::group_seq_lib_default, vstd::seq::group_seq_axioms;

/// The most bytes a header block may occupy before it is rejected: header
/// accumulation is bounded, like every other buffer of the parser.
pub const MAX_HEADER_LEN: usize = 16384;

/// A space or horizontal tab.
pub open spec fn is_ws(b: u8) -> bool {
    b == 32 || b == 9
}

/// The index of the first occurrence of the needle in the haystack, if any.
pub open spec fn first_occ(hay: Seq<u8>, needle: Seq<u8>) -> Option<int> {
    if exists|i: int| is_first_occ(hay, needle, i) {
        Some(choose|i: int| is_first_occ(hay, needle, i))
    } else {
        None
    }
}

/// A found first occurrence determines `first_occ`.
pub proof fn lemma_first_occ_some(hay: Seq<u8>, needle: Seq<u8>, i: int)
    requires
        is_first_occ(hay, needle, i),
    ensures
        first_occ(hay, needle) == Some(i),
{
    let j = choose|j: int| is_first_occ(hay, needle, j);
    if j < i {
        assert(!occurs_at(hay, needle, j));
    }
    if i < j {
        assert(!occurs_at(hay, needle, i));
    }
}

/// No occurrence anywhere determines `first_occ`.
pub proof fn lemma_first_occ_none(hay: Seq<u8>, needle: Seq<u8>)
    requires
        forall|j: int| !occurs_at(hay, needle, j),
    ensures
        first_occ(hay, needle) == None::<int>,
{
    if exists|i: int| is_first_occ(hay, needle, i) {
        let i = choose|i: int| is_first_occ(hay, needle, i);
        assert(!occurs_at(hay, needle, i));
    }
}

/// ASCII upper-case letters folded to lower case; all other bytes stand.
pub open spec fn lower(s: Seq<u8>) -> Seq<u8> {
    s.map_values(|b: u8| if 65 <= b && b <= 90 { (b + 32) as u8 } else { b })
}

/// The byte string without its leading spaces and tabs.
pub open spec fn trim_start(s: Seq<u8>) -> Seq<u8>
    decreases s.len(),
{
    if s.len() > 0 && is_ws(s[0]) {
        trim_start(s.drop_first())
    } else {
        s
    }
}

/// The byte string without its trailing spaces and tabs.
pub open spec fn trim_end(s: Seq<u8>) -> Seq<u8>
    decreases s.len(),
{
    if s.len() > 0 && is_ws(s.last()) {
        trim_end(s.drop_last())
    } else {
        s
    }
}

/// The byte string without leading or trailing spaces and tabs.
pub open spec fn trim(s: Seq<u8>) -> Seq<u8> {
    trim_end(trim_start(s))
}

/// The pieces of the byte string cut at every occurrence of the separator,
/// in order; the separators themselves are dropped.
pub open spec fn split_on(s: Seq<u8>, sep: Seq<u8>) -> Seq<Seq<u8>>
    recommends
        sep.len() >= 1,
    decreases s.len(),
{
    match first_occ(s, sep) {
        Some(i) => {
            if 0 <= i && 1 <= sep.len() && i + sep.len() <= s.len() {
                seq![s.take(i)] + split_on(s.skip(i + sep.len()), sep)
            } else {
                // unreachable: a first occurrence lies within the string
                seq![s]
            }
        },
        None => seq![s],
    }
}

/// The views of a list of byte buffers.
pub open spec fn views_of(vs: Seq<Vec<u8>>) -> Seq<Seq<u8>> {
    vs.map_values(|v: Vec<u8>| v@)
}

/// The bytes of the byte string between the given bounds.
pub fn subvec(v: &Vec<u8>, a: usize, b: usize) -> (r: Vec<u8>)
    requires
        a <= b <= v@.len(),
    ensures
        r@ == v@.subrange(a as int, b as int),
{
    let mut r: Vec<u8> = Vec::new();
    let mut i: usize = a;
    while i < b
        invariant
            a <= i <= b <= v@.len(),
            r@ == v@.subrange(a as int, i as int),
        decreases b - i,
    {
        r.push(v[i]);
        proof {
            assert(v@.subrange(a as int, i + 1int) =~= v@.subrange(a as int, i as int).push(
                v@[i as int],
            ));
        }
        i += 1;
    }
    r
}

/// Whether two byte strings hold the same bytes.
pub fn eq_bytes(a: &Vec<u8>, b: &Vec<u8>) -> (r: bool)
    ensures
        r == (a@ == b@),
{
    if a.len() != b.len() {
        proof {
            assert(a@ != b@);
        }
        return false;
    }
    let mut i: usize = 0;
    while i < a.len()
        invariant
            a@.len() == b@.len(),
            i <= a@.len(),
            forall|j: int| 0 <= j < i ==> a@[j] == b@[j],
        decreases a@.len() - i,
    {
        if a[i] != b[i] {
            return false;
        }
        i += 1;
    }
    proof {
        assert(a@ =~= b@);
    }
    true
}

/// The byte string with ASCII upper-case letters folded to lower case.
pub fn to_lower(v: &Vec<u8>) -> (r: Vec<u8>)
    ensures
        r@ == lower(v@),
{
    let mut r: Vec<u8> = Vec::new();
    let mut i: usize = 0;
    while i < v.len()
        invariant
            i <= v@.len(),
            r@ == lower(v@.take(i as int)),
        decreases v@.len() - i,
    {
        let b = v[i];
        if 65 <= b && b <= 90 {
            r.push(b + 32);
        } else {
            r.push(b);
        }
        proof {
            assert(lower(v@.take(i + 1int)) =~= lower(v@.take(i as int)).push(
                if 65 <= v@[i as int] && v@[i as int] <= 90 {
                    (v@[i as int] + 32) as u8
                } else {
                    v@[i as int]
                },
            ));
        }
        i += 1;
    }
    proof {
        assert(v@.take(v@.len() as int) =~= v@);
    }
    r
}

/// The byte string without leading or trailing spaces and tabs.
pub fn trim_exec(v: &Vec<u8>) -> (r: Vec<u8>)
    ensures
        r@ == trim(v@),
{
    let mut a: usize = 0;
    proof {
        assert(v@.skip(0) =~= v@);
    }
    while a < v.len() && (v[a] == 32 || v[a] == 9)
        invariant
            a <= v@.len(),
            trim_start(v@) == trim_start(v@.skip(a as int)),
        decreases v@.len() - a,
    {
        proof {
            assert(v@.skip(a as int).drop_first() =~= v@.skip(a + 1int));
        }
        a += 1;
    }
    proof {
        assert(trim_start(v@.skip(a as int)) == v@.skip(a as int));
    }
    let mut b: usize = v.len();
    while b > a && (v[b - 1] == 32 || v[b - 1] == 9)
        invariant
            a <= b <= v@.len(),
            trim_start(v@) == v@.skip(a as int),
            trim_end(v@.skip(a as int)) == trim_end(v@.subrange(a as int, b as int)),
        decreases b,
    {
        proof {
            assert(v@.subrange(a as int, b as int).drop_last() =~= v@.subrange(a as int, b
                - 1int));
        }
        b -= 1;
    }
    proof {
        let piece = v@.subrange(a as int, b as int);
        if b == a {
            assert(piece =~= Seq::<u8>::empty());
            assert(trim_end(piece) == piece);
        } else {
            assert(piece.last() == v@[b - 1int]);
            assert(trim_end(piece) == piece);
        }
    }
    subvec(v, a, b)
}

/// Cut the byte string at every occurrence of the separator.
pub fn split_on_exec(v: &Vec<u8>, sep: &Vec<u8>) -> (r: Vec<Vec<u8>>)
    requires
        sep@.len() >= 1,
    ensures
        views_of(r@) == split_on(v@, sep@),
{
    let mut pieces: Vec<Vec<u8>> = Vec::new();
    let mut rest: Vec<u8> = subvec(v, 0, v.len());
    proof {
        assert(rest@ =~= v@);
    }
    loop
        invariant
            sep@.len() >= 1,
            views_of(pieces@) + split_on(rest@, sep@) == split_on(v@, sep@),
        decreases rest@.len(),
    {
        match find_first(&rest, sep) {
            Some(i) => {
                proof {
                    lemma_first_occ_some(rest@, sep@, i as int);
                }
                let rlen = rest.len();
                proof {
                    assert(i + sep@.len() <= rest@.len());
                }
                let piece = subvec(&rest, 0, i);
                let tail = subvec(&rest, i + sep.len(), rlen);
                proof {
                    assert(piece@ =~= rest@.take(i as int));
                    assert(tail@ =~= rest@.skip(i + sep@.len() as int));
                    assert(views_of(pieces@.push(piece)) =~= views_of(pieces@).push(piece@));
                    assert(views_of(pieces@).push(rest@.take(i as int)) + split_on(
                        rest@.skip(i + sep@.len() as int),
                        sep@,
                    ) =~= views_of(pieces@) + split_on(rest@, sep@));
                }
                pieces.push(piece);
                rest = tail;
            },
            None => {
                proof {
                    lemma_first_occ_none(rest@, sep@);
                    assert(views_of(pieces@.push(rest)) =~= views_of(pieces@).push(rest@));
                    assert(views_of(pieces@).push(rest@) =~= views_of(pieces@) + split_on(
                        rest@,
                        sep@,
                    ));
                }
                pieces.push(rest);
                return pieces;
            },
        }
    }
}


/// The CRLF line break.
pub open spec fn crlf() -> Seq<u8> {
    seq![13u8, 10u8]
}

/// The bytes of the lower-case key `content-disposition`.
pub open spec fn cd_key() -> Seq<u8> {
    seq![99u8, 111u8, 110u8, 116u8, 101u8, 110u8, 116u8, 45u8, 100u8, 105u8, 115u8, 112u8, 111u8,
        115u8, 105u8, 116u8, 105u8, 111u8, 110u8]
}

/// The bytes of the lower-case key `content-type`.
pub open spec fn ct_key() -> Seq<u8> {
    seq![99u8, 111u8, 110u8, 116u8, 101u8, 110u8, 116u8, 45u8, 116u8, 121u8, 112u8, 101u8]
}

/// The bytes of the disposition type `form-data`.
pub open spec fn form_data() -> Seq<u8> {
    seq![102u8, 111u8, 114u8, 109u8, 45u8, 100u8, 97u8, 116u8, 97u8]
}

/// The bytes of the parameter key `name`.
pub open spec fn name_key() -> Seq<u8> {
    seq![110u8, 97u8, 109u8, 101u8]
}

/// The bytes of the parameter key `filename`.
pub open spec fn filename_key() -> Seq<u8> {
    seq![102u8, 105u8, 108u8, 101u8, 110u8, 97u8, 109u8, 101u8]
}

/// A parameter value without its surrounding double quotes, if it has them.
pub open spec fn unquote(v: Seq<u8>) -> Seq<u8> {
    if v.len() >= 2 && v[0] == 34 && v.last() == 34 {
        v.subrange(1, v.len() - 1)
    } else {
        v
    }
}

/// Physical lines joined per RFC 822 folding: a line that begins with a
/// space or tab continues the line before it.
pub open spec fn unfold_from(prev: Seq<u8>, rest: Seq<Seq<u8>>) -> Seq<Seq<u8>>
    decreases rest.len(),
{
    if rest.len() == 0 {
        seq![prev]
    } else if rest[0].len() > 0 && is_ws(rest[0][0]) {
        unfold_from(prev + rest[0], rest.drop_first())
    } else {
        seq![prev] + unfold_from(rest[0], rest.drop_first())
    }
}

/// The logical header lines of a block, or nothing when the very first line
/// starts with folding whitespace and so continues no line at all.
pub open spec fn logical_lines(block: Seq<u8>) -> Option<Seq<Seq<u8>>> {
    let phys = split_on(block, crlf());
    if phys.len() == 0 {
        None
    } else if phys[0].len() > 0 && is_ws(phys[0][0]) {
        None
    } else {
        Some(unfold_from(phys[0], phys.drop_first()))
    }
}

/// A logical line split into its lower-cased, trimmed key and its trimmed
/// value at the first colon; a line without a colon is malformed.
pub open spec fn parse_logical_line(line: Seq<u8>) -> Option<(Seq<u8>, Seq<u8>)> {
    match first_occ(line, seq![58u8]) {
        Some(i) => {
            if 0 <= i && i + 1 <= line.len() {
                Some((lower(trim(line.take(i))), trim(line.skip(i + 1))))
            } else {
                None
            }
        },
        None => None,
    }
}

/// The `name` and `filename` parameters collected from the segments of a
/// `content-disposition` value. A segment without `=`, or a repeated
/// parameter, is malformed.
pub open spec fn parse_params(
    segs: Seq<Seq<u8>>,
    name: Option<Seq<u8>>,
    filename: Option<Seq<u8>>,
) -> Option<(Option<Seq<u8>>, Option<Seq<u8>>)>
    decreases segs.len(),
{
    if segs.len() == 0 {
        Some((name, filename))
    } else {
        let seg = segs[0];
        match first_occ(seg, seq![61u8]) {
            Some(i) => {
                if 0 <= i && i + 1 <= seg.len() {
                    let k = lower(trim(seg.take(i)));
                    let v = unquote(trim(seg.skip(i + 1)));
                    if k == name_key() {
                        if name is Some {
                            None
                        } else {
                            parse_params(segs.drop_first(), Some(v), filename)
                        }
                    } else if k == filename_key() {
                        if filename is Some {
                            None
                        } else {
                            parse_params(segs.drop_first(), name, Some(v))
                        }
                    } else {
                        parse_params(segs.drop_first(), name, filename)
                    }
                } else {
                    None
                }
            },
            None => None,
        }
    }
}

/// A `content-disposition` value parsed into the mandatory field name and
/// the optional file name. The disposition type must be `form-data`, and
/// the `name` parameter must be present.
pub open spec fn parse_disposition(value: Seq<u8>) -> Option<(Seq<u8>, Option<Seq<u8>>)> {
    let segs = split_on(value, seq![59u8]);
    if segs.len() == 0 || lower(trim(segs[0])) != form_data() {
        None
    } else {
        match parse_params(segs.drop_first(), None, None) {
            Some((Some(n), f)) => Some((n, f)),
            _ => None,
        }
    }
}

/// The spec-level result of parsing a header block: every value still as
/// raw bytes.
pub ghost struct ByteHeaders {
    /// The value of the mandatory `name` parameter.
    pub name: Seq<u8>,
    /// The value of the `filename` parameter, when one was given.
    pub filename: Option<Seq<u8>>,
    /// The value of the `content-type` header, when one was given.
    pub content_type: Option<Seq<u8>>,
    /// Every other logical header line, verbatim and in order.
    pub other: Seq<Seq<u8>>,
}

/// The logical lines folded into a header model. A duplicated
/// `content-disposition` or `content-type`, an unparsable line, or a missing
/// disposition line is malformed.
pub open spec fn process_lines(
    lines: Seq<Seq<u8>>,
    disp: Option<(Seq<u8>, Option<Seq<u8>>)>,
    ct: Option<Seq<u8>>,
    other: Seq<Seq<u8>>,
) -> Option<ByteHeaders>
    decreases lines.len(),
{
    if lines.len() == 0 {
        match disp {
            Some((n, f)) => Some(
                ByteHeaders { name: n, filename: f, content_type: ct, other },
            ),
            None => None,
        }
    } else {
        match parse_logical_line(lines[0]) {
            Some((k, v)) => {
                if k == cd_key() {
                    if disp is Some {
                        None
                    } else {
                        match parse_disposition(v) {
                            Some(d) => process_lines(lines.drop_first(), Some(d), ct, other),
                            None => None,
                        }
                    }
                } else if k == ct_key() {
                    if ct is Some {
                        None
                    } else {
                        process_lines(lines.drop_first(), disp, Some(v), other)
                    }
                } else {
                    process_lines(lines.drop_first(), disp, ct, other.push(lines[0]))
                }
            },
            None => None,
        }
    }
}

/// The whole header block parsed to its byte-level model: split into
/// physical lines, unfolded, and processed line by line.
pub open spec fn parse_headers_bytes(block: Seq<u8>) -> Option<ByteHeaders> {
    match logical_lines(block) {
        Some(lines) => process_lines(lines, None, None, seq![]),
        None => None,
    }
}

/// Whether every value of the model is valid UTF-8, as the string fields of
/// [`FieldHeaders`] require.
pub open spec fn headers_utf8(m: ByteHeaders) -> bool {
    &&& valid_utf8(m.name)
    &&& (m.filename matches Some(f) ==> valid_utf8(f))
    &&& (m.content_type matches Some(c) ==> valid_utf8(c))
    &&& forall|i: int| 0 <= i < m.other.len() ==> valid_utf8(#[trigger] m.other[i])
}

/// The delivered headers are the exact parse of a header accumulation
/// `total`: the blank line first occurs at `q`, and the block before it —
/// and nothing else — parses to exactly `h`.
pub open spec fn headers_from(h: FieldHeaders, total: Seq<u8>, q: int) -> bool {
    &&& 0 <= q
    &&& is_first_occ(total, crlf() + crlf(), q)
    &&& (parse_headers_bytes(total.take(q)) matches Some(m) && headers_utf8(m) && matches_model(
        h,
        m,
    ))
}

/// The headers of one field of a multipart body: the mandatory field name,
/// the optional file name, the declared content type if any, and every other
/// header line verbatim.
#[derive(Debug, Clone, PartialEq, Eq)]
pub struct FieldHeaders {
    /// The value of the mandatory `name` parameter of `Content-Disposition`.
    pub name: String,
    /// The value of its `filename` parameter, when one was given.
    pub filename: Option<String>,
    /// The value of the `Content-Type` header, when one was given.
    pub content_type: Option<String>,
    /// Every other logical header line, verbatim and in order.
    pub other: Vec<String>,
}

/// Whether the exec headers carry exactly the decoded values of the model.
pub open spec fn matches_model(h: FieldHeaders, m: ByteHeaders) -> bool {
    &&& h.name@ == decode_utf8(m.name)
    &&& match (h.filename, m.filename) {
        (Some(s), Some(b)) => s@ == decode_utf8(b),
        (None, None) => true,
        _ => false,
    }
    &&& match (h.content_type, m.content_type) {
        (Some(s), Some(b)) => s@ == decode_utf8(b),
        (None, None) => true,
        _ => false,
    }
    &&& h.other@.len() == m.other.len()
    &&& forall|i: int| 0 <= i < m.other.len() ==> (#[trigger] h.other@[i])@ == decode_utf8(
        m.other[i],
    )
}

impl FieldHeaders {
    /// An equal copy of these headers, field by field.
    pub fn duplicate(&self) -> (h: FieldHeaders)
        ensures
            h.name == self.name,
            h.filename == self.filename,
            h.content_type == self.content_type,
            h.other@ == self.other@,
    {
        let name = self.name.clone();
        let filename = match &self.filename {
            Some(s) => Some(s.clone()),
            None => None,
        };
        let content_type = match &self.content_type {
            Some(s) => Some(s.clone()),
            None => None,
        };
        let mut other: Vec<String> = Vec::new();
        let mut i: usize = 0;
        while i < self.other.len()
            invariant
                i <= self.other@.len(),
                other@ == self.other@.take(i as int),
            decreases self.other@.len() - i,
        {
            other.push(self.other[i].clone());
            proof {
                assert(self.other@.take(i + 1int) =~= self.other@.take(i as int).push(
                    self.other@[i as int],
                ));
            }
            i += 1;
        }
        proof {
            assert(self.other@.take(self.other@.len() as int) =~= self.other@);
        }
        FieldHeaders { name, filename, content_type, other }
    }

    /// Whether this field is to be read as text: it has no declared content
    /// type, or the declared type's major type is `text` — the bare word, or
    /// `text/` followed by a subtype.
    pub open spec fn is_text_spec(self) -> bool {
        match self.content_type {
            None => true,
            Some(ct) => {
                let b = vstd::utf8::encode_utf8(ct@);
                &&& b.len() >= 4
                &&& b[0] == 116 && b[1] == 101 && b[2] == 120 && b[3] == 116
                &&& (b.len() == 4 || b[4] == 47)
            },
        }
    }

    /// Whether this field is to be read as text: it has no declared content
    /// type, or the declared type's major type is `text`.
    pub fn is_text(&self) -> (r: bool)
        ensures
            r == self.is_text_spec(),
    {
        match &self.content_type {
            None => true,
            Some(ct) => {
                let b = ct.as_str().as_bytes_vec();
                b.len() >= 4 && b[0] == 116 && b[1] == 101 && b[2] == 120 && b[3] == 116 && (
                b.len() == 4 || b[4] == 47)
            },
        }
    }
}


/// The view of an optional byte buffer.
pub open spec fn opt_view(o: Option<Vec<u8>>) -> Option<Seq<u8>> {
    match o {
        Some(v) => Some(v@),
        None => None,
    }
}

/// A one-byte needle.
fn byte_vec(b: u8) -> (r: Vec<u8>)
    ensures
        r@ == seq![b],
{
    let mut v: Vec<u8> = Vec::new();
    v.push(b);
    proof {
        assert(v@ =~= seq![b]);
    }
    v
}

/// The CRLF line break.
fn crlf_vec() -> (r: Vec<u8>)
    ensures
        r@ == crlf(),
{
    let mut v: Vec<u8> = Vec::new();
    v.push(13);
    v.push(10);
    proof {
        assert(v@ =~= crlf());
    }
    v
}

/// The blank line that ends a header block.
fn crlf_crlf_vec() -> (r: Vec<u8>)
    ensures
        r@ == crlf() + crlf(),
{
    let mut v: Vec<u8> = Vec::new();
    v.push(13);
    v.push(10);
    v.push(13);
    v.push(10);
    proof {
        assert(v@ =~= crlf() + crlf());
    }
    v
}

/// The lower-case key `content-disposition`.
fn cd_key_vec() -> (r: Vec<u8>)
    ensures
        r@ == cd_key(),
{
    let mut v: Vec<u8> = Vec::new();
    v.push(99);
    v.push(111);
    v.push(110);
    v.push(116);
    v.push(101);
    v.push(110);
    v.push(116);
    v.push(45);
    v.push(100);
    v.push(105);
    v.push(115);
    v.push(112);
    v.push(111);
    v.push(115);
    v.push(105);
    v.push(116);
    v.push(105);
    v.push(111);
    v.push(110);
    proof {
        assert(v@ =~= cd_key());
    }
    v
}

/// The lower-case key `content-type`.
fn ct_key_vec() -> (r: Vec<u8>)
    ensures
        r@ == ct_key(),
{
    let mut v: Vec<u8> = Vec::new();
    v.push(99);
    v.push(111);
    v.push(110);
    v.push(116);
    v.push(101);
    v.push(110);
    v.push(116);
    v.push(45);
    v.push(116);
    v.push(121);
    v.push(112);
    v.push(101);
    proof {
        assert(v@ =~= ct_key());
    }
    v
}

/// The disposition type `form-data`.
fn form_data_vec() -> (r: Vec<u8>)
    ensures
        r@ == form_data(),
{
    let mut v: Vec<u8> = Vec::new();
    v.push(102);
    v.push(111);
    v.push(114);
    v.push(109);
    v.push(45);
    v.push(100);
    v.push(97);
    v.push(116);
    v.push(97);
    proof {
        assert(v@ =~= form_data());
    }
    v
}

/// The parameter key `name`.
fn name_key_vec() -> (r: Vec<u8>)
    ensures
        r@ == name_key(),
{
    let mut v: Vec<u8> = Vec::new();
    v.push(110);
    v.push(97);
    v.push(109);
    v.push(101);
    proof {
        assert(v@ =~= name_key());
    }
    v
}

/// The parameter key `filename`.
fn filename_key_vec() -> (r: Vec<u8>)
    ensures
        r@ == filename_key(),
{
    let mut v: Vec<u8> = Vec::new();
    v.push(102);
    v.push(105);
    v.push(108);
    v.push(101);
    v.push(110);
    v.push(97);
    v.push(109);
    v.push(101);
    proof {
        assert(v@ =~= filename_key());
    }
    v
}

/// A parameter value without its surrounding double quotes, if it has them.
fn unquote_exec(v: Vec<u8>) -> (r: Vec<u8>)
    ensures
        r@ == unquote(v@),
{
    if v.len() >= 2 && v[0] == 34 && v[v.len() - 1] == 34 {
        subvec(&v, 1, v.len() - 1)
    } else {
        v
    }
}

/// Build the string for a header value, refusing bytes that are not valid
/// UTF-8.
fn bytes_to_string(v: Vec<u8>) -> (r: Result<String, Error>)
    ensures
        match r {
            Ok(s) => valid_utf8(v@) && s@ == decode_utf8(v@),
            Err(e) => !valid_utf8(v@) && e.kind == ErrorKind::Headers,
        },
{
    let n = utf8_valid_len(&v);
    if n == v.len() {
        proof {
            crate::server::text::lemma_valid_len_valid_prefix(v@);
            assert(v@.take(v@.len() as int) =~= v@);
        }
        Ok(crate::server::text::string_from_utf8(v))
    } else {
        proof {
            if valid_utf8(v@) {
                crate::server::text::lemma_valid_utf8_valid_len(v@);
            }
        }
        Err(Error::new(ErrorKind::Headers, "header value is not valid UTF-8"))
    }
}

/// Collect the `name` and `filename` parameters from the segments of a
/// `content-disposition` value, starting at segment `j`.
fn parse_params_exec(
    segs: &Vec<Vec<u8>>,
    j: usize,
    name: Option<Vec<u8>>,
    filename: Option<Vec<u8>>,
) -> (r: Result<(Option<Vec<u8>>, Option<Vec<u8>>), Error>)
    requires
        j <= segs@.len(),
    ensures
        ({
            let sr = parse_params(
                views_of(segs@).skip(j as int),
                opt_view(name),
                opt_view(filename),
            );
            match r {
                Ok((n, f)) => sr == Some((opt_view(n), opt_view(f))),
                Err(e) => sr is None && e.kind == ErrorKind::Headers,
            }
        }),
    decreases segs@.len() - j,
{
    if j == segs.len() {
        proof {
            assert(views_of(segs@).skip(j as int) =~= Seq::<Seq<u8>>::empty());
        }
        return Ok((name, filename));
    }
    let ghost rest = views_of(segs@).skip(j as int);
    proof {
        assert(rest[0] == segs@[j as int]@);
        assert(rest.drop_first() =~= views_of(segs@).skip(j + 1int));
    }
    let seg = &segs[j];
    let eq_sep = byte_vec(61);
    match find_first(seg, &eq_sep) {
        Some(i) => {
            proof {
                lemma_first_occ_some(seg@, seq![61u8], i as int);
            }
            let slen = seg.len();
            proof {
                assert(i + 1 <= seg@.len());
            }
            let k = subvec(seg, 0, i);
            let k = trim_exec(&k);
            let k = to_lower(&k);
            let raw = subvec(seg, i + 1, slen);
            let raw = trim_exec(&raw);
            let val = unquote_exec(raw);
            let nk = name_key_vec();
            let fk = filename_key_vec();
            if eq_bytes(&k, &nk) {
                if name.is_some() {
                    return Err(Error::new(
                        ErrorKind::Headers,
                        "repeated name parameter in content-disposition",
                    ));
                }
                parse_params_exec(segs, j + 1, Some(val), filename)
            } else if eq_bytes(&k, &fk) {
                if filename.is_some() {
                    return Err(Error::new(
                        ErrorKind::Headers,
                        "repeated filename parameter in content-disposition",
                    ));
                }
                parse_params_exec(segs, j + 1, name, Some(val))
            } else {
                parse_params_exec(segs, j + 1, name, filename)
            }
        },
        None => {
            proof {
                lemma_first_occ_none(seg@, seq![61u8]);
            }
            Err(Error::new(
                ErrorKind::Headers,
                "content-disposition parameter without a value",
            ))
        },
    }
}

/// Parse a `content-disposition` value into the mandatory field name and
/// the optional file name.
fn parse_disposition_exec(value: &Vec<u8>) -> (r: Result<(Vec<u8>, Option<Vec<u8>>), Error>)
    ensures
        match r {
            Ok((n, f)) => parse_disposition(value@) == Some((n@, opt_view(f))),
            Err(e) => parse_disposition(value@) is None && e.kind == ErrorKind::Headers,
        },
{
    let semi = byte_vec(59);
    let segs = split_on_exec(value, &semi);
    proof {
        assert(views_of(segs@).len() >= 1);
        assert(segs@.len() >= 1);
        assert(views_of(segs@)[0] == segs@[0]@);
    }
    let first = trim_exec(&segs[0]);
    let first = to_lower(&first);
    let fd = form_data_vec();
    if !eq_bytes(&first, &fd) {
        return Err(Error::new(
            ErrorKind::Headers,
            "content-disposition is not form-data",
        ));
    }
    proof {
        assert(views_of(segs@).skip(1) =~= views_of(segs@).drop_first());
    }
    match parse_params_exec(&segs, 1, None, None) {
        Ok((Some(n), f)) => Ok((n, f)),
        Ok((None, _)) => Err(Error::new(
            ErrorKind::Headers,
            "content-disposition carries no field name",
        )),
        Err(e) => Err(e),
    }
}

/// Fold the logical lines from index `j` on into the header pieces.
/// `seen` records whether a `content-disposition` line has been handled;
/// when it has, `name` carries the field name.
fn process_lines_exec(
    lines: &Vec<Vec<u8>>,
    j: usize,
    seen: bool,
    name: Option<Vec<u8>>,
    filename: Option<Vec<u8>>,
    ct: Option<Vec<u8>>,
    other: Vec<Vec<u8>>,
) -> (r: Result<(Vec<u8>, Option<Vec<u8>>, Option<Vec<u8>>, Vec<Vec<u8>>), Error>)
    requires
        j <= lines@.len(),
        seen ==> name is Some,
        !seen ==> name is None && filename is None,
    ensures
        ({
            let disp = if seen {
                Some((
                    (match name {
                        Some(n) => n@,
                        None => Seq::empty(),
                    }),
                    opt_view(filename),
                ))
            } else {
                None
            };
            let sr = process_lines(
                views_of(lines@).skip(j as int),
                disp,
                opt_view(ct),
                views_of(other@),
            );
            match r {
                Ok((n, f, c, o)) => sr == Some(
                    ByteHeaders {
                        name: n@,
                        filename: opt_view(f),
                        content_type: opt_view(c),
                        other: views_of(o@),
                    },
                ),
                Err(e) => sr is None && (e.kind == ErrorKind::Headers),
            }
        }),
    decreases lines@.len() - j,
{
    if j == lines.len() {
        proof {
            assert(views_of(lines@).skip(j as int) =~= Seq::<Seq<u8>>::empty());
        }
        match name {
            Some(n) => {
                return Ok((n, filename, ct, other));
            },
            None => {
                return Err(Error::new(
                    ErrorKind::Headers,
                    "header block carries no content-disposition line",
                ));
            },
        }
    }
    let ghost rest = views_of(lines@).skip(j as int);
    proof {
        assert(rest[0] == lines@[j as int]@);
        assert(rest.drop_first() =~= views_of(lines@).skip(j + 1int));
    }
    let line = &lines[j];
    let colon = byte_vec(58);
    match find_first(line, &colon) {
        Some(i) => {
            proof {
                lemma_first_occ_some(line@, seq![58u8], i as int);
            }
            let llen = line.len();
            proof {
                assert(i + 1 <= line@.len());
            }
            let k = subvec(line, 0, i);
            let k = trim_exec(&k);
            let k = to_lower(&k);
            let val = subvec(line, i + 1, llen);
            let val = trim_exec(&val);
            let cdk = cd_key_vec();
            let ctk = ct_key_vec();
            if eq_bytes(&k, &cdk) {
                if seen {
                    return Err(Error::new(
                        ErrorKind::Headers,
                        "repeated content-disposition line",
                    ));
                }
                match parse_disposition_exec(&val) {
                    Ok((n, f)) => process_lines_exec(lines, j + 1, true, Some(n), f, ct, other),
                    Err(e) => Err(e),
                }
            } else if eq_bytes(&k, &ctk) {
                if ct.is_some() {
                    return Err(Error::new(ErrorKind::Headers, "repeated content-type line"));
                }
                process_lines_exec(lines, j + 1, seen, name, filename, Some(val), other)
            } else {
                let mut other = other;
                let copy = subvec(line, 0, line.len());
                proof {
                    assert(copy@ =~= line@);
                    assert(views_of(other@.push(copy)) =~= views_of(other@).push(copy@));
                }
                other.push(copy);
                process_lines_exec(lines, j + 1, seen, name, filename, ct, other)
            }
        },
        None => {
            proof {
                lemma_first_occ_none(line@, seq![58u8]);
            }
            Err(Error::new(ErrorKind::Headers, "header line without a colon"))
        },
    }
}

/// Join physical lines per RFC 822 folding: a line beginning with a space
/// or tab continues the line before it.
fn unfold_exec(phys: &Vec<Vec<u8>>) -> (r: Vec<Vec<u8>>)
    requires
        phys@.len() >= 1,
    ensures
        views_of(r@) == unfold_from(phys@[0]@, views_of(phys@).skip(1)),
{
    let mut out: Vec<Vec<u8>> = Vec::new();
    let first = &phys[0];
    let mut cur = subvec(first, 0, first.len());
    proof {
        assert(cur@ =~= phys@[0]@);
    }
    let mut i: usize = 1;
    loop
        invariant
            1 <= i <= phys@.len(),
            unfold_from(phys@[0]@, views_of(phys@).skip(1)) == views_of(out@) + unfold_from(
                cur@,
                views_of(phys@).skip(i as int),
            ),
        decreases phys@.len() - i,
    {
        if i == phys.len() {
            proof {
                assert(views_of(phys@).skip(i as int) =~= Seq::<Seq<u8>>::empty());
                assert(views_of(out@.push(cur)) =~= views_of(out@).push(cur@));
                assert(views_of(out@).push(cur@) =~= views_of(out@) + unfold_from(
                    cur@,
                    Seq::empty(),
                ));
            }
            out.push(cur);
            return out;
        }
        let ghost rest = views_of(phys@).skip(i as int);
        proof {
            assert(rest[0] == phys@[i as int]@);
            assert(rest.drop_first() =~= views_of(phys@).skip(i + 1int));
        }
        let line = &phys[i];
        let copy = subvec(line, 0, line.len());
        proof {
            assert(copy@ =~= line@);
        }
        if line.len() > 0 && (line[0] == 32 || line[0] == 9) {
            let mut copy = copy;
            cur.append(&mut copy);
        } else {
            proof {
                assert(views_of(out@.push(cur)) =~= views_of(out@).push(cur@));
            }
            out.push(cur);
            cur = copy;
        }
        i += 1;
    }
}

/// Parse one complete header block (without its terminating blank line)
/// into [`FieldHeaders`]. The result is exactly the decoded byte-level
/// model; a block the grammar refuses, or a value that is not valid UTF-8,
/// is a header error.
pub fn parse_header_block(block: &Vec<u8>) -> (r: Result<FieldHeaders, Error>)
    ensures
        match r {
            Ok(h) => (parse_headers_bytes(block@) matches Some(m) && headers_utf8(m)
                && matches_model(h, m)),
            Err(e) => {
                &&& e.kind == ErrorKind::Headers
                &&& (parse_headers_bytes(block@) matches Some(m) ==> !headers_utf8(m))
            },
        },
{
    let sep = crlf_vec();
    let phys = split_on_exec(block, &sep);
    proof {
        assert(views_of(phys@).len() >= 1);
        assert(phys@.len() == views_of(phys@).len());
        assert(views_of(phys@)[0] == phys@[0]@);
    }
    let first = &phys[0];
    if first.len() > 0 && (first[0] == 32 || first[0] == 9) {
        return Err(Error::new(
            ErrorKind::Headers,
            "header block begins with folding whitespace",
        ));
    }
    let lines = unfold_exec(&phys);
    proof {
        assert(views_of(phys@).skip(1) =~= views_of(phys@).drop_first());
        assert(views_of(lines@).skip(0) =~= views_of(lines@));
    }
    let empty_other: Vec<Vec<u8>> = Vec::new();
    proof {
        assert(views_of(empty_other@) =~= Seq::<Seq<u8>>::empty());
    }
    let (nb, fb, cb, ob) = match process_lines_exec(&lines, 0, false, None, None, None, empty_other)
        {
        Ok(t) => t,
        Err(e) => {
            return Err(e);
        },
    };
    let ghost m = ByteHeaders {
        name: nb@,
        filename: opt_view(fb),
        content_type: opt_view(cb),
        other: views_of(ob@),
    };
    proof {
        assert(m.other == views_of(ob@));
    }
    let name = match bytes_to_string(nb) {
        Ok(s) => s,
        Err(e) => {
            return Err(e);
        },
    };
    let filename = match fb {
        Some(v) => match bytes_to_string(v) {
            Ok(s) => Some(s),
            Err(e) => {
                return Err(e);
            },
        },
        None => None,
    };
    let content_type = match cb {
        Some(v) => match bytes_to_string(v) {
            Ok(s) => Some(s),
            Err(e) => {
                return Err(e);
            },
        },
        None => None,
    };
    proof {
        assert(m.other == views_of(ob@));
    }
    let mut other: Vec<String> = Vec::new();
    let mut i: usize = 0;
    #[verifier::loop_isolation(false)]
    while i < ob.len()
        invariant
            i <= ob@.len(),
            other@.len() == i,
            forall|k: int| 0 <= k < i ==> valid_utf8(#[trigger] views_of(ob@)[k]) && other@[k]@
                == decode_utf8(views_of(ob@)[k]),
        decreases ob@.len() - i,
    {
        let piece = subvec(&ob[i], 0, ob[i].len());
        let ghost pv = piece@;
        proof {
            assert(pv =~= ob@[i as int]@);
            assert(views_of(ob@).len() == ob@.len());
            assert(views_of(ob@)[i as int] == ob@[i as int]@);
        }
        match bytes_to_string(piece) {
            Ok(s) => {
                other.push(s);
            },
            Err(e) => {
                proof {
                    assert(m.other == views_of(ob@));
                    assert(m.other[i as int] == pv);
                    assert(!headers_utf8(m));
                }
                return Err(e);
            },
        }
        i += 1;
    }
    Ok(FieldHeaders { name, filename, content_type, other })
}



/// The headers a field yields are a function of the header bytes alone:
/// two headers read from the same accumulation agree on every value —
/// the blank line has one first occurrence, and the block before it has one
/// parse. Together with the boundary scanner's split invariance, the parsed
/// fields of a body do not depend on how its bytes were cut into chunks.
pub proof fn lemma_headers_deterministic(
    h1: FieldHeaders,
    h2: FieldHeaders,
    total: Seq<u8>,
    q1: int,
    q2: int,
)
    requires
        headers_from(h1, total, q1),
        headers_from(h2, total, q2),
    ensures
        q1 == q2,
        h1.name@ == h2.name@,
        match (h1.filename, h2.filename) {
            (Some(f1), Some(f2)) => f1@ == f2@,
            (None, None) => true,
            _ => false,
        },
        match (h1.content_type, h2.content_type) {
            (Some(c1), Some(c2)) => c1@ == c2@,
            (None, None) => true,
            _ => false,
        },
        h1.other@.len() == h2.other@.len(),
        forall|i: int| 0 <= i < h1.other@.len() ==> (#[trigger] h1.other@[i])@ == h2.other@[i]@,
{
    if q1 < q2 {
        assert(!occurs_at(total, crlf() + crlf(), q1));
    }
    if q2 < q1 {
        assert(!occurs_at(total, crlf() + crlf(), q2));
    }
    let m = parse_headers_bytes(total.take(q1));
    match m {
        Some(m) => {
            assert(matches_model(h1, m) && matches_model(h2, m));
        },
        None => {},
    }
}


/// The block before the blank line at `q` parses, with every value valid
/// UTF-8: the header reader owes a parsed result for it.
pub open spec fn block_parses(a: Seq<u8>, q: int) -> bool {
    parse_headers_bytes(a.take(q)) matches Some(m) && headers_utf8(m)
}

/// The conditions under which the header reader owes a decision right away,
/// over its accumulated bytes `acc`, the scanner's buffered bytes `buf` and
/// the delimiter `d`: the blank line first occurs at `q` in `acc + buf`,
/// it stands clear of the held-back delimiter tail and of the header size
/// bound, and no delimiter occurrence cuts the block short.
pub open spec fn header_block_ready(acc: Seq<u8>, buf: Seq<u8>, d: Seq<u8>, q: int) -> bool {
    let a = acc + buf;
    &&& is_first_occ(a, crlf() + crlf(), q)
    &&& q + 4 + d.len() <= a.len() + 1
    &&& q + 4 <= MAX_HEADER_LEN
    &&& acc.len() <= MAX_HEADER_LEN
    &&& forall|j: int| #[trigger] occurs_at(buf, d, j) ==> acc.len() + j >= q + 4
}

/// Accumulates bytes from the boundary scanner until a complete header
/// block — terminated by an empty line — has been seen, then parses it.
#[derive(Debug)]
pub struct ReadHeaders {
    accum: Vec<u8>,
}

impl Default for ReadHeaders {
    /// An empty header reader.
    fn default() -> (r: ReadHeaders)
        ensures
            r.accum_bytes().len() == 0,
    {
        ReadHeaders { accum: Vec::new() }
    }
}

impl ReadHeaders {
    /// The header bytes accumulated so far.
    pub closed spec fn accum_bytes(self) -> Seq<u8> {
        self.accum@
    }

    /// Read and parse the next field's header block from the scanner.
    ///
    /// Body bytes are pulled from the scanner until the blank line is seen;
    /// bytes past the blank line are handed back as the start of the field's
    /// body. A block larger than [`MAX_HEADER_LEN`] is a limit error; a
    /// field whose headers end — at the boundary or at the end of input —
    /// before any blank line is a header error, as is a block the header
    /// grammar refuses.
    pub fn read_headers(&mut self, finder: &mut BoundaryFinder) -> (r: Result<
        Async<Option<FieldHeaders>>,
        Error,
    >)
        requires
            old(finder).wf(),
            old(finder).phase_spec() == ScanPhase::Scanning || old(finder).phase_spec()
                == ScanPhase::AtBoundary,
        ensures
            final(finder).wf(),
            final(finder).delim_bytes() == old(finder).delim_bytes(),
            final(finder).is_closed() == old(finder).is_closed(),
            match r {
                Ok(Async::Ready(Some(h))) => {
                    let a = old(self).accum_bytes() + old(finder).buf_bytes();
                    &&& exists|q: int|
                        #![trigger headers_from(h, a, q)]
                        headers_from(h, a, q) && final(finder).buf_bytes() == a.skip(q + 4)
                    &&& final(finder).phase_spec() == ScanPhase::Scanning
                    &&& final(finder).emitted_bytes().len() == 0
                    &&& final(self).accum_bytes().len() == 0
                },
                Ok(Async::Ready(None)) => false,
                Ok(Async::NotReady) => {
                    &&& !old(finder).is_closed()
                    &&& final(finder).phase_spec() == ScanPhase::Scanning
                    // no input is lost while suspended: the bytes merely
                    // moved from the scanner into the header accumulator
                    &&& final(self).accum_bytes() + final(finder).buf_bytes() == old(
                        self,
                    ).accum_bytes() + old(finder).buf_bytes()
                },
                Err(e) => (e.kind == ErrorKind::Headers || e.kind == ErrorKind::Limit || e.kind
                    == ErrorKind::Boundary) && (final(finder).phase_spec() == ScanPhase::Scanning
                    || final(finder).phase_spec() == ScanPhase::AtBoundary),
            },
            old(finder).phase_spec() == ScanPhase::Scanning ==> forall|q: int|
                #[trigger] header_block_ready(
                    old(self).accum_bytes(),
                    old(finder).buf_bytes(),
                    old(finder).delim_bytes(),
                    q,
                ) ==> {
                let a = old(self).accum_bytes() + old(finder).buf_bytes();
                if block_parses(a, q) {
                    r matches Ok(Async::Ready(Some(_)))
                } else {
                    (r matches Err(e) && e.kind == ErrorKind::Headers)
                }
            },
    {
        match finder.phase() {
            ScanPhase::AtBoundary => {
                return Err(Error::new(
                    ErrorKind::Headers,
                    "field ended before its header block was complete",
                ));
            },
            _ => {},
        }
        let ghost acc0 = old(self).accum_bytes();
        let ghost buf0 = old(finder).buf_bytes();
        let ghost a = acc0 + buf0;
        let ghost d = old(finder).delim_bytes();
        proof {
            assert(self.accum@ =~= a.take(self.accum@.len() as int));
        }
        let sep = crlf_crlf_vec();
        loop
            invariant
                finder.wf(),
                finder.phase_spec() == ScanPhase::Scanning,
                finder.delim_bytes() == old(finder).delim_bytes(),
                finder.is_closed() == old(finder).is_closed(),
                sep@ == crlf() + crlf(),
                acc0 == old(self).accum_bytes(),
                buf0 == old(finder).buf_bytes(),
                a == acc0 + buf0,
                d == old(finder).delim_bytes(),
                self.accum@ + finder.buf_bytes() == a,
                self.accum@ == a.take(self.accum@.len() as int),
                acc0.len() <= self.accum@.len(),
            decreases finder.buf_bytes().len(),
        {
            match find_first(&self.accum, &sep) {
                Some(q) => {
                    let alen = self.accum.len();
                    let ghost total = self.accum@;
                    proof {
                        lemma_first_occ_some(self.accum@, sep@, q as int);
                        assert(q + 4 <= alen);
                        // the first blank line of the accumulated prefix is
                        // the first of the whole available input
                        assert forall|j: int| 0 <= j < q implies !occurs_at(a, sep@, j) by {
                            if occurs_at(a, sep@, j) {
                                assert(forall|k: int| 0 <= k < 4 ==> #[trigger] a[j + k] == total[j + k]);
                                assert(occurs_at(total, sep@, j));
                            }
                        }
                        assert(forall|k: int| 0 <= k < 4 ==> #[trigger] a[q + k] == total[q + k]);
                        assert(is_first_occ(a, sep@, q as int));
                        lemma_is_first_occ_unique(a, sep@, q as int);
                        assert forall|q2: int| header_block_ready(acc0, buf0, d, q2)
                            implies q2 == q by {
                            assert(acc0 + buf0 == a);
                            assert(is_first_occ(a, sep@, q2));
                        }
                    }
                    let leftover = self.accum.split_off(q + 4);
                    let mut block = crate::helpers::replace_default(&mut self.accum);
                    block.truncate(q);
                    finder.unread_bytes(leftover);
                    proof {
                        assert(block@ =~= total.take(q as int));
                        assert(block@ =~= a.take(q as int));
                        assert(finder.buf_bytes() =~= a.skip(q + 4));
                    }
                    match parse_header_block(&block) {
                        Ok(h) => {
                            proof {
                                assert(headers_from(h, a, q as int));
                                assert(block_parses(a, q as int));
                            }
                            return Ok(Async::Ready(Some(h)));
                        },
                        Err(e) => {
                            proof {
                                assert(!block_parses(a, q as int));
                            }
                            return Err(e);
                        },
                    }
                },
                None => {
                    let ghost acclen = self.accum@.len() as int;
                    proof {
                        lemma_no_block_in_prefix(a, self.accum@, sep@);
                    }
                    if self.accum.len() > MAX_HEADER_LEN {
                        proof {
                            assert forall|q: int| header_block_ready(acc0, buf0, d, q)
                                implies false by {
                                assert(acc0 + buf0 == a);
                                assert(occurs_at(a, sep@, q));
                                assert(q + 4 <= MAX_HEADER_LEN);
                                assert(q + 4 > acclen);
                            }
                        }
                        return Err(Error::new(
                            ErrorKind::Limit,
                            "header block exceeds the header size bound",
                        ));
                    }
                    match finder.body_chunk() {
                        Ok(Async::Ready(Some(c))) => {
                            let mut c = c;
                            self.accum.append(&mut c);
                            proof {
                                assert(self.accum@ + finder.buf_bytes() =~= a);
                                assert(self.accum@ =~= a.take(self.accum@.len() as int));
                            }
                        },
                        Ok(Async::Ready(None)) => {
                            // the boundary arrived before any blank line:
                            // the delimiter cuts the block short
                            proof {
                                assert forall|q: int| header_block_ready(acc0, buf0, d, q)
                                    implies false by {
                                    assert(acc0 + buf0 == a);
                                    let j = acclen - acc0.len();
                                    assert(occurs_at(finder.buf_bytes(), d, 0));
                                    assert(finder.buf_bytes() =~= a.skip(acclen));
                                    assert forall|k: int| 0 <= k < d.len() implies buf0[j + k]
                                        == d[k] by {
                                        assert(buf0[j + k] == a[acclen + k]);
                                        assert(a[acclen + k] == finder.buf_bytes()[k]);
                                    }
                                    assert(j + d.len() <= buf0.len());
                                    assert(occurs_at(buf0, d, j));
                                    assert(acc0.len() + j >= q + 4);
                                    assert(occurs_at(a, sep@, q));
                                    assert(q + 4 > acclen);
                                }
                            }
                            return Err(Error::new(
                                ErrorKind::Headers,
                                "field ended before its header block was complete",
                            ));
                        },
                        Ok(Async::NotReady) => {
                            proof {
                                lemma_tail_too_short(acc0, buf0, d, a, sep@, acclen,
                                    finder.buf_bytes().len() as int);
                            }
                            return Ok(Async::NotReady);
                        },
                        Err(e) => {
                            proof {
                                lemma_tail_too_short(acc0, buf0, d, a, sep@, acclen,
                                    finder.buf_bytes().len() as int);
                            }
                            return Err(e);
                        },
                    }
                },
            }
        }
    }
}

/// When the scanner is down to a held-back partial-delimiter tail and the
/// accumulated prefix holds no blank line, no readiness condition can hold:
/// a ready blank line would stand clear of the tail, so it would already be
/// inside the accumulated prefix.
proof fn lemma_tail_too_short(
    acc0: Seq<u8>,
    buf0: Seq<u8>,
    d: Seq<u8>,
    a: Seq<u8>,
    sep: Seq<u8>,
    acclen: int,
    taillen: int,
)
    requires
        a == acc0 + buf0,
        sep == crlf() + crlf(),
        acclen + taillen == a.len(),
        taillen < d.len(),
        forall|q: int| #[trigger] occurs_at(a, sep, q) ==> q + sep.len() > acclen,
    ensures
        forall|q: int| !(#[trigger] header_block_ready(acc0, buf0, d, q)),
{
    assert forall|q: int| !(#[trigger] header_block_ready(acc0, buf0, d, q)) by {
        if header_block_ready(acc0, buf0, d, q) {
            assert(occurs_at(a, sep, q));
            assert(q + 4 > acclen);
            assert(q + 4 + d.len() <= a.len() + 1);
            assert(q + 4 <= a.len() - d.len() + 1);
            assert(a.len() - d.len() + 1 <= acclen + taillen - d.len() + 1);
            assert(q + 4 <= acclen);
        }
    }
}

/// While the blank line has not been found in the accumulated prefix, no
/// blank-line occurrence of the whole input fits inside that prefix.
proof fn lemma_no_block_in_prefix(a: Seq<u8>, acc: Seq<u8>, sep: Seq<u8>)
    requires
        acc.len() <= a.len(),
        acc == a.take(acc.len() as int),
        forall|j: int| !occurs_at(acc, sep, j),
    ensures
        forall|q: int| #[trigger] occurs_at(a, sep, q) ==> q + sep.len() > acc.len(),
{
    assert forall|q: int| #[trigger] occurs_at(a, sep, q) && q + sep.len() <= acc.len()
        implies false by {
        assert forall|k: int| 0 <= k < sep.len() implies #[trigger] acc[q + k] == a[q + k] by {
            assert(a.take(acc.len() as int)[q + k] == a[q + k]);
        }
        assert(occurs_at(acc, sep, q));
    }
}

} // verus!
