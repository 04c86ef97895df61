use vstd::prelude::*;
use vstd::string::StringSliceAdditionalSpecFns;
use vstd::utf8::*;

verus! {

broadcast use {encode_utf8_valid_utf8, encode_utf8_decode_utf8};

/// The bytes that a string holds, as UTF-8.
pub open spec fn bytes_of(s: Seq<char>) -> Seq<u8> {
    encode_utf8(s)
}

/// The characters that the bytes `[start, end)` of `src` encode.
pub open spec fn text_of(src: Seq<u8>, start: int, end: int) -> Seq<char> {
    decode_utf8(src.subrange(start, end))
}

/// Every string slice decodes back from its own bytes.
pub proof fn lemma_str_view_is_decoded(s: &str)
    ensures
        s@ == decode_utf8(s.spec_bytes()),
        valid_utf8(s.spec_bytes()),
{
}

/// A cut of valid UTF-8 that falls on a boundary stays a boundary in any suffix
/// that starts at an earlier boundary.
pub proof fn lemma_boundary_in_suffix(bytes: Seq<u8>, from: int, at: int)
    requires
        valid_utf8(bytes),
        is_char_boundary(bytes, from),
        is_char_boundary(bytes, at),
        0 <= from <= at <= bytes.len(),
    ensures
        valid_utf8(bytes.subrange(from, bytes.len() as int)),
        is_char_boundary(bytes.subrange(from, bytes.len() as int), at - from),
{
    let rest = bytes.subrange(from, bytes.len() as int);
    valid_utf8_split(bytes, from);
    if at == bytes.len() {
        is_char_boundary_start_end_of_seq(rest);
        assert(rest.len() == at - from);
    } else if at == from {
        is_char_boundary_start_end_of_seq(rest);
    } else {
        is_char_boundary_iff_not_is_continuation_byte(bytes, at);
        is_char_boundary_iff_not_is_continuation_byte(rest, at - from);
        assert(rest[at - from] == bytes[at]);
    }
}

/// Decoding a range of valid UTF-8 cut at a boundary is decoding the two halves.
pub proof fn lemma_text_of_split(src: Seq<u8>, start: int, mid: int, end: int)
    requires
        valid_utf8(src),
        0 <= start <= mid <= end <= src.len(),
        is_char_boundary(src, start),
        is_char_boundary(src, mid),
        is_char_boundary(src, end),
    ensures
        valid_utf8(src.subrange(start, end)),
        text_of(src, start, end) == text_of(src, start, mid) + text_of(src, mid, end),
{
    let whole = src.subrange(start, end);
    lemma_boundary_in_suffix(src, start, end);
    lemma_boundary_in_suffix(src, start, mid);
    let rest = src.subrange(start, src.len() as int);
    valid_utf8_split(rest, end - start);
    assert(rest.subrange(0, end - start) =~= whole);
    // mid is a boundary of `whole`
    if mid - start == whole.len() {
        is_char_boundary_start_end_of_seq(whole);
    } else if mid == start {
        is_char_boundary_start_end_of_seq(whole);
    } else {
        is_char_boundary_iff_not_is_continuation_byte(rest, mid - start);
        is_char_boundary_iff_not_is_continuation_byte(whole, mid - start);
        assert(whole[mid - start] == rest[mid - start]);
    }
    decode_utf8_split(whole, mid - start);
    assert(whole.subrange(0, mid - start) =~= src.subrange(start, mid));
    assert(whole.subrange(mid - start, whole.len() as int) =~= src.subrange(mid, end));
}

/// A half-open range `[start, end)` of byte offsets into a source text.
#[derive(Debug, Default, Clone, Copy)]
pub struct Span(pub u32, pub u32);

impl Span {
    pub fn start(&self) -> (r: u32)
        ensures
            r == self.0,
    {
        self.0
    }

    pub fn end(&self) -> (r: u32)
        ensures
            r == self.1,
    {
        self.1
    }

    /// The part of `source` that the span covers.
    pub fn text<'s>(&self, source: &'s str) -> (r: &'s str)
        requires
            self.0 <= self.1 <= source.spec_bytes().len(),
            is_char_boundary(source.spec_bytes(), self.0 as int),
            is_char_boundary(source.spec_bytes(), self.1 as int),
        ensures
            r.spec_bytes() == source.spec_bytes().subrange(self.0 as int, self.1 as int),
            r@ == text_of(source.spec_bytes(), self.0 as int, self.1 as int),
    {
        let bytes = Ghost(source.spec_bytes());
        proof {
            lemma_boundary_in_suffix(bytes@, self.0 as int, self.1 as int);
        }
        let (_, rest) = source.split_at(self.0 as usize);
        let (mid, _) = rest.split_at((self.1 - self.0) as usize);
        proof {
            assert(mid.spec_bytes() =~= bytes@.subrange(self.0 as int, self.1 as int));
            lemma_str_view_is_decoded(mid);
        }
        mid
    }
}

} // verus!
