//! Text as the zone file sees it: sequences of characters, measured and ordered
//! by their UTF-8 bytes.

use vstd::prelude::*;
use vstd::string::*;
use vstd::utf8::*;

verus! {

/// The number of bytes that `text` occupies once encoded as UTF-8.
pub open spec fn byte_len(text: Seq<char>) -> nat {
    encode_utf8(text).len()
}

/// A run of `count` space characters.
pub open spec fn spaces(count: nat) -> Seq<char> {
    Seq::new(count, |i: int| ' ')
}

/// `text` ends with `suffix`.
pub open spec fn ends_with(text: Seq<char>, suffix: Seq<char>) -> bool {
    &&& suffix.len() <= text.len()
    &&& text.subrange(text.len() - suffix.len(), text.len() as int) == suffix
}

/// Lexicographic comparison of two byte strings, looking only at positions
/// `from` and later: the first position at which they differ decides, and a
/// string that runs out first is the smaller one.
pub open spec fn bytes_le_from(a: Seq<u8>, b: Seq<u8>, from: int) -> bool
    decreases a.len() - from,
{
    if from >= a.len() {
        true
    } else if from >= b.len() {
        false
    } else if a[from] != b[from] {
        a[from] < b[from]
    } else {
        bytes_le_from(a, b, from + 1)
    }
}

/// `a` is byte-wise lexicographically less than or equal to `b`.
pub open spec fn bytes_le(a: Seq<u8>, b: Seq<u8>) -> bool {
    bytes_le_from(a, b, 0)
}

/// `a` sorts before or together with `b`: the order of their UTF-8 encodings.
pub open spec fn text_le(a: Seq<char>, b: Seq<char>) -> bool {
    bytes_le(encode_utf8(a), encode_utf8(b))
}

/// `at` is the first position at which `a` and `b` differ.
pub open spec fn first_difference(a: Seq<u8>, b: Seq<u8>, at: int) -> bool {
    &&& 0 <= at < a.len()
    &&& at < b.len()
    &&& a[at] != b[at]
    &&& forall|i: int| 0 <= i < at ==> a[i] == b[i]
}

/// The lexicographic order as it is usually stated: `a` is the beginning of
/// `b`, or at the first position at which they differ `a` has the smaller
/// byte.
pub open spec fn lexicographic_le(a: Seq<u8>, b: Seq<u8>) -> bool {
    a.is_prefix_of(b) || exists|at: int| first_difference(a, b, at) && a[at] < b[at]
}

proof fn lemma_bytes_le_from_is_lexicographic(a: Seq<u8>, b: Seq<u8>, from: int)
    requires
        0 <= from <= a.len(),
        from <= b.len(),
        forall|i: int| 0 <= i < from ==> a[i] == b[i],
    ensures
        bytes_le_from(a, b, from) == lexicographic_le(a, b),
    decreases a.len() - from,
{
    if from >= a.len() {
        assert(a =~= b.subrange(0, a.len() as int));
    } else if from >= b.len() {
        assert(!a.is_prefix_of(b));
        assert forall|at: int| !(first_difference(a, b, at) && a[at] < b[at]) by {}
    } else if a[from] != b[from] {
        assert(first_difference(a, b, from));
        if a.is_prefix_of(b) {
            assert(b.subrange(0, a.len() as int)[from] == b[from]);
        }
        assert forall|at: int| first_difference(a, b, at) implies at == from by {}
    } else {
        lemma_bytes_le_from_is_lexicographic(a, b, from + 1);
    }
}

/// The comparison is the lexicographic order of the bytes.
pub proof fn lemma_bytes_le_is_lexicographic(a: Seq<u8>, b: Seq<u8>)
    ensures
        bytes_le(a, b) == lexicographic_le(a, b),
{
    lemma_bytes_le_from_is_lexicographic(a, b, 0);
}

/// From any position on, a byte string is below itself.
pub proof fn lemma_bytes_le_from_reflexive(a: Seq<u8>, from: int)
    requires
        0 <= from,
    ensures
        bytes_le_from(a, a, from),
    decreases a.len() - from,
{
    if from < a.len() {
        lemma_bytes_le_from_reflexive(a, from + 1);
    }
}

/// From any position on, of two byte strings one is below the other.
pub proof fn lemma_bytes_le_from_total(a: Seq<u8>, b: Seq<u8>, from: int)
    requires
        0 <= from,
    ensures
        bytes_le_from(a, b, from) || bytes_le_from(b, a, from),
    decreases a.len() - from,
{
    if from < a.len() && from < b.len() && a[from] == b[from] {
        lemma_bytes_le_from_total(a, b, from + 1);
    }
}

/// From any position on, the comparison is transitive.
pub proof fn lemma_bytes_le_from_transitive(a: Seq<u8>, b: Seq<u8>, c: Seq<u8>, from: int)
    requires
        0 <= from,
        bytes_le_from(a, b, from),
        bytes_le_from(b, c, from),
    ensures
        bytes_le_from(a, c, from),
    decreases a.len() - from,
{
    if from < a.len() && a[from] == b[from] && b[from] == c[from] {
        lemma_bytes_le_from_transitive(a, b, c, from + 1);
    }
}

/// Two byte strings that are each below the other agree from `from` on.
pub proof fn lemma_bytes_le_from_antisymmetric(a: Seq<u8>, b: Seq<u8>, from: int)
    requires
        0 <= from,
        bytes_le_from(a, b, from),
        bytes_le_from(b, a, from),
    ensures
        a.len() <= from && b.len() <= from || a.len() == b.len() && forall|i: int|
            from <= i < a.len() ==> a[i] == b[i],
    decreases a.len() - from,
{
    if from < a.len() {
        lemma_bytes_le_from_antisymmetric(a, b, from + 1);
    }
}

/// Every text sorts together with itself.
pub proof fn lemma_text_le_reflexive(a: Seq<char>)
    ensures
        text_le(a, a),
{
    lemma_bytes_le_from_reflexive(encode_utf8(a), 0);
}

/// Any two texts are comparable.
pub proof fn lemma_text_le_total(a: Seq<char>, b: Seq<char>)
    ensures
        text_le(a, b) || text_le(b, a),
{
    lemma_bytes_le_from_total(encode_utf8(a), encode_utf8(b), 0);
}

/// The order is transitive.
pub proof fn lemma_text_le_transitive(a: Seq<char>, b: Seq<char>, c: Seq<char>)
    requires
        text_le(a, b),
        text_le(b, c),
    ensures
        text_le(a, c),
{
    lemma_bytes_le_from_transitive(encode_utf8(a), encode_utf8(b), encode_utf8(c), 0);
}

/// Two texts that sort together both ways are the same text.
pub proof fn lemma_text_le_antisymmetric(a: Seq<char>, b: Seq<char>)
    requires
        text_le(a, b),
        text_le(b, a),
    ensures
        a == b,
{
    let x = encode_utf8(a);
    let y = encode_utf8(b);
    lemma_bytes_le_from_antisymmetric(x, y, 0);
    assert(x =~= y);
    encode_utf8_decode_utf8(a);
    encode_utf8_decode_utf8(b);
}

/// Encoding distributes over concatenation.
pub proof fn lemma_encode_concat(a: Seq<char>, b: Seq<char>)
    ensures
        encode_utf8(a + b) == encode_utf8(a) + encode_utf8(b),
    decreases a.len(),
{
    if a.len() == 0 {
        assert(a + b =~= b);
        assert(encode_utf8(a) + encode_utf8(b) =~= encode_utf8(b));
    } else {
        assert((a + b).drop_first() =~= a.drop_first() + b);
        lemma_encode_concat(a.drop_first(), b);
        assert(encode_utf8(a + b) =~= encode_utf8(a) + encode_utf8(b));
    }
}

/// The byte length of a concatenation is the sum of the byte lengths.
pub proof fn lemma_byte_len_concat(a: Seq<char>, b: Seq<char>)
    ensures
        byte_len(a + b) == byte_len(a) + byte_len(b),
{
    lemma_encode_concat(a, b);
}

/// A run of spaces takes one byte per space.
pub proof fn lemma_byte_len_spaces(count: nat)
    ensures
        byte_len(spaces(count)) == count,
{
    is_ascii_chars_encode_utf8(spaces(count));
}

/// Two runs of spaces in a row are one run.
pub proof fn lemma_spaces_concat(a: nat, b: nat)
    ensures
        spaces(a) + spaces(b) == spaces(a + b),
{
    assert(spaces(a) + spaces(b) =~= spaces(a + b));
}

/// Compares two strings byte by byte.
pub fn str_le(a: &str, b: &str) -> (le: bool)
    ensures
        le == text_le(a@, b@),
{
    let x = a.as_bytes();
    let y = b.as_bytes();
    let mut i: usize = 0;
    while i < x.len() && i < y.len()
        invariant
            i <= x.len(),
            i <= y.len(),
            x@ == encode_utf8(a@),
            y@ == encode_utf8(b@),
            text_le(a@, b@) == bytes_le_from(x@, y@, i as int),
        decreases x.len() - i,
    {
        if x[i] != y[i] {
            return x[i] < y[i];
        }
        i += 1;
    }
    x.len() <= y.len()
}

} // verus!
