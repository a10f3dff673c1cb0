//! Text and bytes: trimming, the step from bytes to a `String`, and the
//! facts about UTF-8 that slicing at ASCII delimiters rests on.

use vstd::prelude::*;
use vstd::utf8::{
    encode_utf8, is_char_boundary_iff_not_is_continuation_byte, is_char_boundary_start_end_of_seq,
    is_continuation_byte, is_leading_byte_width_1, partial_valid_utf8,
    partial_valid_utf8_extend_ascii_block, valid_utf8, valid_utf8_split,
};

verus! {

/// The characters with the Unicode property White_Space.
pub open spec fn is_white_space(c: char) -> bool {
    let u = c as u32;
    (0x09 <= u <= 0x0d) || u == 0x20 || u == 0x85 || u == 0xa0 || u == 0x1680 || (0x2000 <= u
        <= 0x200a) || u == 0x2028 || u == 0x2029 || u == 0x202f || u == 0x205f || u == 0x3000
}

pub open spec fn trim_start(s: Seq<char>) -> Seq<char>
    decreases s.len(),
{
    if s.len() > 0 && is_white_space(s[0]) {
        trim_start(s.drop_first())
    } else {
        s
    }
}

pub open spec fn trim_end(s: Seq<char>) -> Seq<char>
    decreases s.len(),
{
    if s.len() > 0 && is_white_space(s.last()) {
        trim_end(s.drop_last())
    } else {
        s
    }
}

/// The text without its leading and trailing white space.
pub open spec fn trimmed(s: Seq<char>) -> Seq<char> {
    trim_end(trim_start(s))
}

/// `str::trim` of the standard library, believed to return the slice that
/// is left when the characters with the property White_Space are taken from
/// both ends.
#[verifier::external_body]
pub(crate) fn trim(s: &str) -> (r: &str)
    ensures
        r@ == trimmed(s@),
{
    s.trim()
}

/// `String::from_utf8` of the standard library, believed to succeed exactly
/// on valid UTF-8 and then to return the text that these bytes encode.
#[verifier::external_body]
pub(crate) fn string_from_utf8(bytes: Vec<u8>) -> (r: Option<String>)
    ensures
        r is Some <==> valid_utf8(bytes@),
        r is Some ==> encode_utf8(r.unwrap()@) == bytes@,
{
    String::from_utf8(bytes).ok()
}

/// Every byte is ASCII.
pub open spec fn is_ascii_bytes(s: Seq<u8>) -> bool {
    forall|i: int| 0 <= i < s.len() ==> #[trigger] s[i] < 0x80
}

/// The position `i` of `s` does not fall inside a character, judged by the
/// byte that stands there.
pub open spec fn at_boundary(s: Seq<u8>, i: int) -> bool {
    0 <= i <= s.len() && (i < s.len() ==> !is_continuation_byte(s[i]))
}

/// ASCII bytes are valid UTF-8.
pub proof fn lemma_ascii_is_utf8(s: Seq<u8>)
    requires
        is_ascii_bytes(s),
    ensures
        valid_utf8(s),
{
    assert(s.subrange(0, 0) =~= Seq::<u8>::empty());
    assert(partial_valid_utf8(s, 0));
    assert forall|i: int| 0 <= 0 <= i < s.len() <= s.len() implies #[trigger] is_leading_byte_width_1(
        s[i],
    ) by {
        assert(s[i] < 0x80);
    }
    partial_valid_utf8_extend_ascii_block(s, 0, s.len() as int);
    assert(s.subrange(0, s.len() as int) =~= s);
}

/// A slice of valid UTF-8 between two boundaries is valid UTF-8.
pub proof fn lemma_slice_is_utf8(s: Seq<u8>, a: int, b: int)
    requires
        valid_utf8(s),
        a <= b,
        at_boundary(s, a),
        at_boundary(s, b),
    ensures
        valid_utf8(s.subrange(a, b)),
{
    if b < s.len() {
        is_char_boundary_iff_not_is_continuation_byte(s, b);
    } else {
        is_char_boundary_start_end_of_seq(s);
    }
    valid_utf8_split(s, b);
    let t = s.subrange(0, b);
    if a < b {
        assert(t[a] == s[a]);
        is_char_boundary_iff_not_is_continuation_byte(t, a);
    } else {
        is_char_boundary_start_end_of_seq(t);
    }
    valid_utf8_split(t, a);
    assert(t.subrange(a, t.len() as int) =~= s.subrange(a, b));
}

/// In valid UTF-8 a character starts behind every ASCII byte.
pub proof fn lemma_boundary_after_ascii(s: Seq<u8>, i: int)
    requires
        valid_utf8(s),
        0 <= i < s.len(),
        s[i] < 0x80,
    ensures
        at_boundary(s, i + 1),
{
    lemma_slice_is_utf8(s, i, s.len() as int);
    let t = s.subrange(i, s.len() as int);
    assert(t[0] == s[i]);
    reveal_with_fuel(valid_utf8, 2);
    let rest = t.subrange(1, t.len() as int);
    assert(valid_utf8(rest));
    if i + 1 < s.len() {
        assert(rest[0] == s[i + 1]);
        assert(rest.len() > 0);
    }
}

} // verus!
