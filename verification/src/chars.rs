//! Character classification and byte-length helpers.
//!
//! The tokenizer classifies code points with std's Unicode predicates and
//! measures offsets in UTF-8 bytes.  The predicates are opaque names here;
//! byte lengths are stated with vstd's UTF-8 encoding function.

use vstd::prelude::*;
use vstd::utf8::encode_utf8;

verus! {

/// Whether `c` is whitespace, in the sense of std's `char::is_whitespace`
/// (the Unicode `White_Space` property).
pub uninterp spec fn char_is_whitespace(c: char) -> bool;

/// Whether `c` is alphanumeric, in the sense of std's
/// `char::is_alphanumeric` (Unicode `Alphabetic` plus the number categories).
pub uninterp spec fn char_is_alphanumeric(c: char) -> bool;

/// The lower-cased form of a character sequence, as std's
/// `str::to_lowercase` computes it.  The full Unicode mapping is left
/// unstated; equal inputs give equal results.
pub uninterp spec fn lower_of(s: Seq<char>) -> Seq<char>;

/// Relies on `char::is_whitespace`: the answer depends on the character alone.
#[verifier::external_body]
pub(crate) fn is_whitespace_char(c: char) -> (r: bool)
    ensures
        r == char_is_whitespace(c),
{
    c.is_whitespace()
}

/// Relies on `char::is_alphanumeric`: the answer depends on the character alone.
#[verifier::external_body]
pub(crate) fn is_alphanumeric_char(c: char) -> (r: bool)
    ensures
        r == char_is_alphanumeric(c),
{
    c.is_alphanumeric()
}

/// Relies on `str::to_lowercase`: the result depends on the characters alone.
#[verifier::external_body]
pub(crate) fn to_lowercase_str(s: &str) -> (r: String)
    ensures
        r@ == lower_of(s@),
{
    s.to_lowercase()
}

/// Whether two strings are equal after case folding.
pub fn eq_folded(a: &str, b: &str) -> (r: bool)
    ensures
        r == (lower_of(a@) == lower_of(b@)),
{
    let la = to_lowercase_str(a);
    let lb = to_lowercase_str(b);
    la == lb
}

/// The length in bytes of the UTF-8 encoding of a character sequence.
pub open spec fn utf8_len(cs: Seq<char>) -> nat {
    encode_utf8(cs).len()
}

/// Every character takes at least one byte to encode.
pub proof fn lemma_utf8_len_lower(cs: Seq<char>)
    ensures
        utf8_len(cs) >= cs.len(),
    decreases cs.len(),
{
    if cs.len() > 0 {
        lemma_utf8_len_lower(cs.drop_first());
    }
}

/// UTF-8 encoding distributes over concatenation, and so does byte length.
pub proof fn lemma_utf8_len_concat(a: Seq<char>, b: Seq<char>)
    ensures
        encode_utf8(a + b) == encode_utf8(a) + encode_utf8(b),
        utf8_len(a + b) == utf8_len(a) + utf8_len(b),
    decreases a.len(),
{
    if a.len() == 0 {
        assert(a + b =~= b);
        assert(encode_utf8(a) + encode_utf8(b) =~= encode_utf8(b));
    } else {
        assert((a + b).drop_first() =~= a.drop_first() + b);
        lemma_utf8_len_concat(a.drop_first(), b);
        assert(encode_utf8(a + b) =~= encode_utf8(a) + encode_utf8(b));
    }
}

} // verus!
