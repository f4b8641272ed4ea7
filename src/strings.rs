//! Null-terminated text in the Windows-1252 code page.
use vstd::prelude::*;

use crate::bytes::Record;
use crate::DecodeError;
use encoding_rs::WINDOWS_1252;

verus! {

/// The text that Windows-1252 decoding gives for `b`.
pub uninterp spec fn windows_1252_text(b: Seq<u8>) -> Seq<char>;

/// Relies on `encoding_rs::WINDOWS_1252.decode`, whose result depends on the
/// bytes alone.
#[verifier::external_body]
fn decode_windows_1252(b: &[u8]) -> (r: String)
    ensures
        r@ == windows_1252_text(b@),
{
    WINDOWS_1252.decode(b).0.into_owned()
}

/// The bytes that Windows-1252 encoding gives for `s`.
pub uninterp spec fn windows_1252_bytes(s: Seq<char>) -> Seq<u8>;

/// Relies on `encoding_rs::WINDOWS_1252.encode`, whose result depends on the
/// text alone.
#[verifier::external_body]
fn encode_windows_1252(s: &str) -> (r: Vec<u8>)
    ensures
        r@ == windows_1252_bytes(s@),
{
    WINDOWS_1252.encode(s).0.into_owned()
}

/// Relies on `String::push`: appends one character.
#[verifier::external_body]
pub(crate) fn push_char(s: &mut String, c: char)
    ensures
        final(s)@ == old(s)@.push(c),
{
    s.push(c)
}

/// The position of the first zero byte at or after `p`, or the length of `d`
/// where there is none.
pub open spec fn first_zero(d: Seq<u8>, p: int) -> int
    decreases d.len() - p,
{
    if p < 0 || p >= d.len() {
        d.len() as int
    } else if d[p] == 0 {
        p
    } else {
        first_zero(d, p + 1)
    }
}

/// Whether a terminated text starts at `p`.
pub open spec fn text_fits(d: Seq<u8>, p: int) -> bool {
    0 <= p && first_zero(d, p) < d.len()
}

/// The text stored from `p` up to its terminator.
pub open spec fn text_at(d: Seq<u8>, p: int) -> Seq<char> {
    windows_1252_text(d.subrange(p, first_zero(d, p)))
}

/// Where a text read at `p` and padded to `pad` bytes ends.
pub open spec fn padded_end(d: Seq<u8>, p: int, pad: int) -> int {
    if first_zero(d, p) + 1 < p + pad {
        p + pad
    } else {
        first_zero(d, p) + 1
    }
}

proof fn lemma_first_zero_bounds(d: Seq<u8>, p: int)
    requires
        0 <= p,
    ensures
        p <= first_zero(d, p) <= d.len() || p > d.len(),
        first_zero(d, p) < d.len() ==> d[first_zero(d, p)] == 0,
        forall|i: int| p <= i < first_zero(d, p) && i < d.len() ==> d[i] != 0,
    decreases d.len() - p,
{
    if p < d.len() && d[p] != 0 {
        lemma_first_zero_bounds(d, p + 1);
    }
}

/// Finds the terminator of the text starting at `p`.
fn find_zero(d: &[u8], p: usize) -> (r: usize)
    ensures
        r as int == first_zero(d@, p as int),
{
    let len = d.len();
    if p >= len {
        return len;
    }
    let mut i = p;
    while i < len
        invariant
            p <= i <= len,
            len == d@.len(),
            first_zero(d@, p as int) == first_zero(d@, i as int),
        decreases len - i,
    {
        if d[i] == 0 {
            return i;
        }
        i = i + 1;
    }
    len
}

/// A text field stored as Windows-1252 bytes followed by a zero byte.
#[derive(Clone, PartialEq, Eq, Default, Debug)]
pub struct WinNullString(pub String);

impl WinNullString {
    /// The text, as a `String`.
    pub fn to_string(&self) -> (r: String)
        ensures
            r@ == self.0@,
    {
        self.0.clone()
    }

    /// The stored form of the text: its Windows-1252 bytes and a zero byte.
    pub fn write_options(&self) -> (r: Vec<u8>)
        ensures
            r@ == windows_1252_bytes(self.0@).push(0),
    {
        let mut bytes = encode_windows_1252(self.0.as_str());
        bytes.push(0);
        bytes
    }

    /// Reads the text at `p`, then skips ahead so that at least `pad` bytes
    /// are consumed.
    pub fn read_padded(d: &[u8], p: usize, pad: u16) -> (r: Result<(WinNullString, usize), DecodeError>)
        requires
            d@.len() + 0x10000 <= usize::MAX,
            p <= d@.len() + 0x10000,
        ensures
            r is Ok <==> text_fits(d@, p as int),
            r matches Ok((s, e)) ==> {
                &&& s.0@ == text_at(d@, p as int)
                &&& e as int == padded_end(d@, p as int, pad as int)
                &&& e <= d@.len() + 0x10000
            },
            r matches Err(e) ==> e == DecodeError::Truncated,
    {
        let (s, e) = <WinNullString as Record>::read_at(d, p, &())?;
        proof { lemma_first_zero_bounds(d@, p as int); }
        if e - p < pad as usize {
            Ok((s, p + pad as usize))
        } else {
            Ok((s, e))
        }
    }
}

impl Record for WinNullString {
    type Args = ();

    open spec fn fits(d: Seq<u8>, p: int) -> bool {
        text_fits(d, p)
    }

    open spec fn end(d: Seq<u8>, p: int) -> int {
        first_zero(d, p) + 1
    }

    open spec fn decoded_from(&self, d: Seq<u8>, p: int, a: &()) -> bool {
        self.0@ == text_at(d, p)
    }

    fn read_at(d: &[u8], p: usize, a: &()) -> (r: Result<(Self, usize), DecodeError>) {
        let z = find_zero(d, p);
        if z >= d.len() {
            return Err(DecodeError::Truncated);
        }
        proof { lemma_first_zero_bounds(d@, p as int); }
        let text = decode_windows_1252(&d[p..z]);
        Ok((WinNullString(text), z + 1))
    }
}

} // verus!
