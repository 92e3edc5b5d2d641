//! UTF-8 support for the byte-offset model: fragment offsets and match
//! positions are byte offsets into UTF-8 text, so the engine needs that
//! the encoding distributes over concatenation and that matched spans lie
//! on character boundaries.

use vstd::prelude::*;
use vstd::string::StringSliceAdditionalSpecFns;
use vstd::utf8::{
    encode_utf8, is_char_boundary, is_char_boundary_iff_not_is_continuation_byte,
    is_char_boundary_start_end_of_seq, length_of_first_scalar, pop_first_scalar, valid_utf8,
    valid_utf8_split,
};

verus! {

/// The UTF-8 encodings of a sequence of strings.
pub open spec fn all_bytes(v: Seq<String>) -> Seq<Seq<u8>> {
    v.map(|_i: int, s: String| encode_utf8(s@))
}

/// Encoding a concatenation concatenates the encodings.
pub proof fn lemma_encode_concat(a: Seq<char>, b: Seq<char>)
    ensures
        encode_utf8(a + b) == encode_utf8(a) + encode_utf8(b),
    decreases a.len(),
{
    if a.len() == 0 {
        assert(a + b =~= b);
        assert(encode_utf8(a) + encode_utf8(b) =~= encode_utf8(b));
    } else {
        assert((a + b)[0] == a[0]);
        assert((a + b).drop_first() =~= a.drop_first() + b);
        lemma_encode_concat(a.drop_first(), b);
        assert(encode_utf8(a + b) =~= encode_utf8(a) + encode_utf8(b));
    }
}

/// A position whose prefix is itself valid UTF-8 is a character boundary.
pub proof fn lemma_prefix_boundary(s: Seq<u8>, k: int)
    requires
        valid_utf8(s),
        0 <= k <= s.len(),
        valid_utf8(s.subrange(0, k)),
    ensures
        is_char_boundary(s, k),
    decreases k,
{
    if k == 0 {
    } else {
        let p = s.subrange(0, k);
        assert(p.len() == k);
        assert(p[0] == s[0]);
        let w = length_of_first_scalar(s);
        assert(length_of_first_scalar(p) == w);
        assert(1 <= w <= k);
        let s1 = pop_first_scalar(s);
        let p1 = pop_first_scalar(p);
        assert(p1 =~= s1.subrange(0, k - w));
        lemma_prefix_boundary(s1, k - w);
    }
}

/// A boundary within a suffix that starts at a boundary is a boundary of
/// the whole, and conversely.
pub proof fn lemma_boundary_shift(text: Seq<u8>, i: int, k: int)
    requires
        valid_utf8(text),
        is_char_boundary(text, i),
        0 <= i,
        0 <= k,
        i + k <= text.len(),
    ensures
        is_char_boundary(text, i + k) <==> is_char_boundary(
            text.subrange(i, text.len() as int),
            k,
        ),
{
    let s = text.subrange(i, text.len() as int);
    valid_utf8_split(text, i);
    if i + k == text.len() {
        is_char_boundary_start_end_of_seq(text);
        is_char_boundary_start_end_of_seq(s);
    } else {
        is_char_boundary_iff_not_is_continuation_byte(text, i + k);
        is_char_boundary_iff_not_is_continuation_byte(s, k);
        assert(s[k] == text[i + k]);
    }
}

/// A span that copies a complete valid UTF-8 sequence out of valid UTF-8
/// text starts and ends on character boundaries.
pub proof fn lemma_span_boundaries(text: Seq<u8>, pat: Seq<u8>, i: int)
    requires
        valid_utf8(text),
        valid_utf8(pat),
        pat.len() > 0,
        0 <= i,
        i + pat.len() <= text.len(),
        text.subrange(i, i + pat.len() as int) == pat,
    ensures
        is_char_boundary(text, i),
        is_char_boundary(text, i + pat.len()),
{
    assert(text[i] == pat[0]) by {
        assert(text.subrange(i, i + pat.len() as int)[0] == text[i]);
    }
    assert(is_char_boundary(pat, 0));
    is_char_boundary_iff_not_is_continuation_byte(pat, 0);
    is_char_boundary_iff_not_is_continuation_byte(text, i);
    let s = text.subrange(i, text.len() as int);
    valid_utf8_split(text, i);
    assert(s.subrange(0, pat.len() as int) =~= pat);
    lemma_prefix_boundary(s, pat.len() as int);
    lemma_boundary_shift(text, i, pat.len() as int);
}

/// Relies on `str::len`: the length of `s` in bytes, which always fits in
/// `usize`.
#[verifier::external_body]
pub(crate) fn byte_len(s: &str) -> (r: usize)
    ensures
        r as nat == s.spec_bytes().len(),
{
    s.len()
}

} // verus!
