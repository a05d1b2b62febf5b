//! Base64 text encoding of byte strings, through the base64 crate.

use vstd::prelude::*;

verus! {

/// The base64 text of a byte string, as the base64 crate's standard alphabet
/// produces it.
pub uninterp spec fn b64_of(data: Seq<u8>) -> Seq<char>;

/// What base64::decode yields on a text: the decoded bytes, or nothing when
/// the text is not decodable. A function of the text alone.
pub uninterp spec fn b64_decode_of(s: Seq<char>) -> Option<Seq<u8>>;

/// Whether a text contains no colon.
pub open spec fn colon_free(s: Seq<char>) -> bool {
    forall|i: int| 0 <= i < s.len() ==> s[i] != ':'
}

/// How many characters of a text equal `c`.
pub open spec fn count_matching(s: Seq<char>, c: char) -> nat
    decreases s.len(),
{
    if s.len() == 0 {
        0
    } else {
        count_matching(s.drop_last(), c) + if s.last() == c {
            1nat
        } else {
            0nat
        }
    }
}

/// Counting characters distributes over concatenation.
pub proof fn lemma_count_concat(a: Seq<char>, b: Seq<char>, c: char)
    ensures
        count_matching(a + b, c) == count_matching(a, c) + count_matching(b, c),
    decreases b.len(),
{
    if b.len() == 0 {
        assert(a + b =~= a);
    } else {
        assert((a + b).drop_last() =~= a + b.drop_last());
        assert((a + b).last() == b.last());
        lemma_count_concat(a, b.drop_last(), c);
    }
}

/// A text with a character equal to `c` contains `c` at least once.
pub proof fn lemma_count_positive(s: Seq<char>, c: char, i: int)
    requires
        0 <= i < s.len(),
        s[i] == c,
    ensures
        count_matching(s, c) >= 1,
    decreases s.len(),
{
    if i < s.len() - 1 {
        lemma_count_positive(s.drop_last(), c, i);
    }
}

/// A text with two distinct characters equal to `c` contains `c` at least
/// twice.
pub proof fn lemma_count_two(s: Seq<char>, c: char, i: int, j: int)
    requires
        0 <= i < j < s.len(),
        s[i] == c,
        s[j] == c,
    ensures
        count_matching(s, c) >= 2,
{
    let front = s.take(i + 1);
    let back = s.subrange(i + 1, s.len() as int);
    assert(s =~= front + back);
    lemma_count_concat(front, back, c);
    lemma_count_positive(front, c, i);
    lemma_count_positive(back, c, j - i - 1);
}

/// A text none of whose characters is `c` contains `c` zero times.
pub proof fn lemma_count_absent(s: Seq<char>, c: char)
    requires
        forall|i: int| 0 <= i < s.len() ==> s[i] != c,
    ensures
        count_matching(s, c) == 0,
    decreases s.len(),
{
    if s.len() > 0 {
        lemma_count_absent(s.drop_last(), c);
    }
}

/// Relies on base64::encode (the standard alphabet, with padding): the text is
/// a function of the input bytes alone, and neither the alphabet (A-Z, a-z,
/// 0-9, '+', '/') nor the padding ('=') contains ':'.
#[verifier::external_body]
pub(crate) fn b64_encode(data: &Vec<u8>) -> (r: String)
    ensures
        r@ == b64_of(data@),
        forall|i: int| 0 <= i < r@.len() ==> r@[i] != ':',
{
    base64::encode(data.as_slice())
}

/// Relies on base64::decode: a pure function of its input, so its outcome can
/// be named; decoding the encoding of a byte string yields exactly that byte
/// string.
#[verifier::external_body]
pub(crate) fn b64_decode(s: &str) -> (r: Option<Vec<u8>>)
    ensures
        r matches Some(v) ==> b64_decode_of(s@) == Some(v@),
        r is None ==> b64_decode_of(s@) is None,
        r is Some || (forall|b: Seq<u8>| s@ != b64_of(b)),
        r matches Some(v) ==> (forall|b: Seq<u8>| s@ == b64_of(b) ==> v@ == b),
{
    match base64::decode(s) {
        Ok(v) => Some(v),
        Err(_) => None,
    }
}

} // verus!
