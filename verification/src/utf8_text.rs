//! Byte-level helpers for UTF-8 text.
use vstd::prelude::*;
use vstd::utf8::*;

verus! {

broadcast use vstd::utf8::group_utf8_lib;

/// std's `String::from_utf8` on a vector that holds valid UTF-8: the string whose
/// encoding is exactly those bytes. The contract states what the std documentation
/// promises; Verus does not check it.
#[verifier::external_body]
pub(crate) fn string_from_utf8(bytes: Vec<u8>) -> (s: String)
    requires
        valid_utf8(bytes@),
    ensures
        s@ == decode_utf8(bytes@),
{
    String::from_utf8(bytes).unwrap()
}

/// Copy the bytes `src[lo..hi]` to the end of `dst`.
pub(crate) fn extend_from_range(dst: &mut Vec<u8>, src: &[u8], lo: usize, hi: usize)
    requires
        lo <= hi <= src@.len(),
    ensures
        final(dst)@ == old(dst)@ + src@.subrange(lo as int, hi as int),
{
    let mut i = lo;
    while i < hi
        invariant
            lo <= i <= hi <= src@.len(),
            dst@ == old(dst)@ + src@.subrange(lo as int, i as int),
        decreases hi - i,
    {
        dst.push(src[i]);
        i = i + 1;
        assert(src@.subrange(lo as int, i as int) =~= src@.subrange(lo as int, i - 1).push(
            src@[i - 1],
        ));
    }
}

/// In valid UTF-8, the byte after an ASCII byte starts a new character.
pub proof fn lemma_after_ascii_is_boundary(b: Seq<u8>, j: int)
    requires
        valid_utf8(b),
        0 <= j < b.len(),
        b[j] < 0x80,
    ensures
        is_char_boundary(b, j + 1),
{
    assert(is_char_boundary(b, j)) by {
        is_char_boundary_iff_not_is_continuation_byte(b, j);
    }
    valid_utf8_split(b, j);
    let s = b.subrange(j, b.len() as int);
    assert(s[0] == b[j]);
    assert(valid_first_scalar(s) && valid_utf8(pop_first_scalar(s)));
    assert(length_of_first_scalar(s) == 1);
    let p = pop_first_scalar(s);
    assert(p =~= b.subrange(j + 1, b.len() as int));
    if j + 1 < b.len() {
        assert(valid_first_scalar(p));
        assert(p[0] == b[j + 1]);
        assert(!is_continuation_byte(b[j + 1]));
        is_char_boundary_iff_not_is_continuation_byte(b, j + 1);
    } else {
        is_char_boundary_start_end_of_seq(b);
    }
}

/// A slice of valid UTF-8 taken between two character boundaries is valid UTF-8.
pub proof fn lemma_subrange_valid(b: Seq<u8>, lo: int, hi: int)
    requires
        valid_utf8(b),
        0 <= lo <= hi <= b.len(),
        is_char_boundary(b, lo),
        is_char_boundary(b, hi),
    ensures
        valid_utf8(b.subrange(lo, hi)),
{
    valid_utf8_split(b, hi);
    let left = b.subrange(0, hi);
    if lo < hi {
        assert(left[lo] == b[lo]);
        is_char_boundary_iff_not_is_continuation_byte(b, lo);
        is_char_boundary_iff_not_is_continuation_byte(left, lo);
    } else {
        is_char_boundary_start_end_of_seq(left);
    }
    valid_utf8_split(left, lo);
    assert(left.subrange(lo, hi) =~= b.subrange(lo, hi));
}

/// A position holding an ASCII byte in valid UTF-8 is a character boundary.
pub proof fn lemma_ascii_is_boundary(b: Seq<u8>, j: int)
    requires
        valid_utf8(b),
        0 <= j < b.len(),
        b[j] < 0x80,
    ensures
        is_char_boundary(b, j),
{
    is_char_boundary_iff_not_is_continuation_byte(b, j);
}

} // verus!
