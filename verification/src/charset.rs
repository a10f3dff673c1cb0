//! Percent-encoding: the character sets of the URL components, the encoder,
//! the decoder, and the proof that decoding undoes encoding.

use crate::text::is_ascii_bytes;
use vstd::prelude::*;

verus! {

/// The percent sign, which introduces an escape.
pub const PERCENT: u8 = 0x25;

/// The character set under which a component is percent-encoded.
///
/// The sets nest: every set escapes the control bytes, the space and every
/// byte outside ASCII, and each later set escapes what the one before it does.
#[derive(Clone, Copy, Debug)]
pub enum EncodeSet {
    Fragment,
    Query,
    SpecialQuery,
    Path,
    Userinfo,
}

/// Control bytes, the space, and every byte outside ASCII.
pub open spec fn is_control_or_non_ascii(b: u8) -> bool {
    b <= 0x20 || b >= 0x7f
}

pub open spec fn in_fragment_set(b: u8) -> bool {
    is_control_or_non_ascii(b) || b == 0x22 || b == 0x3c || b == 0x3e || b == 0x60
}

pub open spec fn in_query_set(b: u8) -> bool {
    in_fragment_set(b) || b == 0x23
}

pub open spec fn in_special_query_set(b: u8) -> bool {
    in_query_set(b) || b == 0x27
}

pub open spec fn in_path_set(b: u8) -> bool {
    in_query_set(b) || b == 0x3f || b == 0x60 || b == 0x7b || b == 0x7d
}

pub open spec fn in_userinfo_set(b: u8) -> bool {
    in_path_set(b) || b == 0x2f || b == 0x3a || b == 0x3b || b == 0x3d || b == 0x40 || b == 0x5b
        || b == 0x5e || b == 0x7c
}

impl EncodeSet {
    /// Whether the set escapes the byte `b`.
    pub open spec fn escapes(self, b: u8) -> bool {
        match self {
            EncodeSet::Fragment => in_fragment_set(b),
            EncodeSet::Query => in_query_set(b),
            EncodeSet::SpecialQuery => in_special_query_set(b),
            EncodeSet::Path => in_path_set(b),
            EncodeSet::Userinfo => in_userinfo_set(b),
        }
    }

    pub fn must_escape(self, b: u8) -> (r: bool)
        ensures
            r == self.escapes(b),
    {
        let base: bool = b <= 0x20 || b >= 0x7f || b == 0x22 || b == 0x3c || b == 0x3e || b == 0x60;
        match self {
            EncodeSet::Fragment => base,
            EncodeSet::Query => base || b == 0x23,
            EncodeSet::SpecialQuery => base || b == 0x23 || b == 0x27,
            EncodeSet::Path => base || b == 0x23 || b == 0x3f || b == 0x7b || b == 0x7d,
            EncodeSet::Userinfo => base || b == 0x23 || b == 0x3f || b == 0x7b || b == 0x7d
                || b == 0x2f || b == 0x3a || b == 0x3b || b == 0x3d || b == 0x40 || b == 0x5b
                || b == 0x5e || b == 0x7c,
        }
    }
}

/// The sets nest: what the fragment set escapes the query set escapes,
/// what the query set escapes the path set and the special query set
/// escape, and what the path set escapes the userinfo set escapes. None of
/// them escapes the percent sign.
pub proof fn lemma_sets_nest(b: u8)
    ensures
        is_control_or_non_ascii(b) ==> EncodeSet::Fragment.escapes(b),
        EncodeSet::Fragment.escapes(b) ==> EncodeSet::Query.escapes(b),
        EncodeSet::Query.escapes(b) ==> EncodeSet::SpecialQuery.escapes(b),
        EncodeSet::Query.escapes(b) ==> EncodeSet::Path.escapes(b),
        EncodeSet::Path.escapes(b) ==> EncodeSet::Userinfo.escapes(b),
        !EncodeSet::Userinfo.escapes(PERCENT),
        !EncodeSet::SpecialQuery.escapes(PERCENT),
{
}

/// The upper-case hexadecimal digit of a value below sixteen.
pub open spec fn hex_digit(n: u8) -> u8 {
    if n < 10 {
        (0x30 + n) as u8
    } else {
        (0x37 + n) as u8
    }
}

/// The value of a hexadecimal digit, of either case.
pub open spec fn hex_value(c: u8) -> Option<u8> {
    if 0x30 <= c <= 0x39 {
        Some((c - 0x30) as u8)
    } else if 0x41 <= c <= 0x46 {
        Some((c - 0x37) as u8)
    } else if 0x61 <= c <= 0x66 {
        Some((c - 0x57) as u8)
    } else {
        None
    }
}

/// The escape of `b`: a percent sign and two upper-case hexadecimal digits.
pub open spec fn escape(b: u8) -> Seq<u8> {
    seq![PERCENT, hex_digit(b / 16), hex_digit(b % 16)]
}

/// The image of one byte under a set: its escape, or the byte itself.
pub open spec fn encode_byte(set: EncodeSet, b: u8) -> Seq<u8> {
    if set.escapes(b) {
        escape(b)
    } else {
        seq![b]
    }
}

/// The image of a byte string under a set, byte by byte.
pub open spec fn percent_encode(set: EncodeSet, s: Seq<u8>) -> Seq<u8>
    decreases s.len(),
{
    if s.len() == 0 {
        Seq::empty()
    } else {
        percent_encode(set, s.drop_last()) + encode_byte(set, s.last())
    }
}

/// Whether `s` starts with a well-formed escape.
pub open spec fn starts_with_escape(s: Seq<u8>) -> bool {
    s.len() >= 3 && s[0] == PERCENT && hex_value(s[1]) is Some && hex_value(s[2]) is Some
}

/// The byte string that `s` stands for: each well-formed escape replaced by
/// its byte, every other byte kept.
pub open spec fn percent_decode(s: Seq<u8>) -> Seq<u8>
    decreases s.len(),
{
    if s.len() == 0 {
        Seq::empty()
    } else if starts_with_escape(s) {
        seq![(hex_value(s[1]).unwrap() * 16 + hex_value(s[2]).unwrap()) as u8] + percent_decode(
            s.subrange(3, s.len() as int),
        )
    } else {
        seq![s[0]] + percent_decode(s.subrange(1, s.len() as int))
    }
}

/// Whatever the set, the image of a byte string is ASCII.
pub proof fn lemma_encode_is_ascii(set: EncodeSet, s: Seq<u8>)
    ensures
        is_ascii_bytes(percent_encode(set, s)),
    decreases s.len(),
{
    if s.len() > 0 {
        lemma_encode_is_ascii(set, s.drop_last());
        let head = percent_encode(set, s.drop_last());
        let tail = encode_byte(set, s.last());
        assert(is_ascii_bytes(tail));
        assert forall|i: int| 0 <= i < (head + tail).len() implies #[trigger] (head + tail)[i]
            < 0x80 by {
            if i >= head.len() {
                assert(tail[i - head.len()] < 0x80);
            }
        }
    }
}

/// An image is at least as long as what was encoded, and at most three
/// times as long.
pub proof fn lemma_encode_len(set: EncodeSet, s: Seq<u8>)
    ensures
        s.len() <= percent_encode(set, s).len() <= 3 * s.len(),
    decreases s.len(),
{
    if s.len() > 0 {
        lemma_encode_len(set, s.drop_last());
    }
}

/// Whether a well-formed escape starts at the index `i` of `s`.
pub open spec fn escape_at(s: Seq<u8>, i: int) -> bool {
    i + 3 <= s.len() && s[i] == PERCENT && hex_value(s[i + 1]) is Some && hex_value(s[i + 2]) is Some
}

/// Whether `s` holds no well-formed escape.
pub open spec fn escape_free(s: Seq<u8>) -> bool {
    forall|i: int| 0 <= i < s.len() ==> !#[trigger] escape_at(s, i)
}

/// Whether `set` escapes no byte of `s`.
pub open spec fn safe_under(set: EncodeSet, s: Seq<u8>) -> bool {
    forall|i: int| 0 <= i < s.len() ==> !set.escapes(#[trigger] s[i])
}

/// Encoding keeps a byte string that holds only safe bytes.
pub proof fn lemma_encode_keeps_safe(set: EncodeSet, s: Seq<u8>)
    requires
        safe_under(set, s),
    ensures
        percent_encode(set, s) == s,
    decreases s.len(),
{
    if s.len() > 0 {
        lemma_encode_keeps_safe(set, s.drop_last());
        assert(!set.escapes(s[s.len() - 1]));
        assert(s.drop_last() + seq![s.last()] =~= s);
    } else {
        assert(s =~= Seq::<u8>::empty());
    }
}

/// Decoding keeps a byte string that holds no escape.
pub proof fn lemma_decode_keeps_escape_free(s: Seq<u8>)
    requires
        escape_free(s),
    ensures
        percent_decode(s) == s,
    decreases s.len(),
{
    if s.len() > 0 {
        let rest = s.subrange(1, s.len() as int);
        assert(!escape_at(s, 0));
        assert forall|i: int| 0 <= i < rest.len() implies !#[trigger] escape_at(rest, i) by {
            assert(!escape_at(s, i + 1));
        }
        lemma_decode_keeps_escape_free(rest);
        assert(seq![s[0]] + rest =~= s);
    } else {
        assert(s =~= Seq::<u8>::empty());
    }
}

/// Whether `s` holds no percent sign.
pub open spec fn percent_free(s: Seq<u8>) -> bool {
    forall|i: int| 0 <= i < s.len() ==> #[trigger] s[i] != PERCENT
}

/// An escape in front decodes to its byte, whatever follows it.
pub proof fn lemma_decode_escape(b: u8, rest: Seq<u8>)
    ensures
        percent_decode(escape(b) + rest) == seq![b] + percent_decode(rest),
{
    let t = escape(b) + rest;
    let hi: u8 = b / 16;
    let lo: u8 = b % 16;
    assert(t[0] == PERCENT && t[1] == hex_digit(hi) && t[2] == hex_digit(lo));
    assert(hex_value(hex_digit(hi)) == Some(hi));
    assert(hex_value(hex_digit(lo)) == Some(lo));
    assert(hi * 16 + lo == b);
    assert(starts_with_escape(t));
    assert(t.subrange(3, t.len() as int) =~= rest);
}

/// The image of a byte other than the percent sign decodes to the byte,
/// whatever follows it.
pub proof fn lemma_decode_encoded_byte(set: EncodeSet, b: u8, rest: Seq<u8>)
    requires
        b != PERCENT,
    ensures
        percent_decode(encode_byte(set, b) + rest) == seq![b] + percent_decode(rest),
{
    if set.escapes(b) {
        lemma_decode_escape(b, rest);
    } else {
        let t = seq![b] + rest;
        assert(t[0] == b);
        assert(t.subrange(1, t.len() as int) =~= rest);
    }
}

/// Bytes without a percent sign decode to themselves, whatever follows them.
pub proof fn lemma_decode_after_raw(raw: Seq<u8>, rest: Seq<u8>)
    requires
        percent_free(raw),
    ensures
        percent_decode(raw + rest) == raw + percent_decode(rest),
    decreases raw.len(),
{
    if raw.len() == 0 {
        assert(raw + rest =~= rest);
        assert(raw + percent_decode(rest) =~= percent_decode(rest));
    } else {
        let t = raw.drop_last();
        let b = raw.last();
        assert(b != PERCENT);
        let one = seq![b] + rest;
        assert(one[0] == b);
        assert(one.subrange(1, one.len() as int) =~= rest);
        assert(percent_decode(one) == seq![b] + percent_decode(rest));
        assert forall|i: int| 0 <= i < t.len() implies #[trigger] t[i] != PERCENT by {
            assert(raw[i] != PERCENT);
        }
        lemma_decode_after_raw(t, one);
        assert(raw + rest =~= t + one);
        assert(t + (seq![b] + percent_decode(rest)) =~= raw + percent_decode(rest));
    }
}

/// Whether `r` is empty or starts with a byte that is no hexadecimal digit.
pub open spec fn hex_free_start(r: Seq<u8>) -> bool {
    r.len() == 0 || hex_value(r[0]) is None
}

/// The image of a byte string starts with the image of its first byte.
pub proof fn lemma_encode_front(set: EncodeSet, x: Seq<u8>)
    requires
        x.len() > 0,
    ensures
        percent_encode(set, x) == encode_byte(set, x[0]) + percent_encode(set, x.drop_first()),
    decreases x.len(),
{
    let t = x.drop_last();
    let u = x.drop_first();
    if x.len() == 1 {
        assert(percent_encode(set, t) =~= Seq::<u8>::empty());
        assert(percent_encode(set, u) =~= Seq::<u8>::empty());
        assert(percent_encode(set, x) =~= encode_byte(set, x[0]) + percent_encode(set, u));
    } else {
        lemma_encode_front(set, t);
        assert(u.drop_last() =~= t.drop_first());
        assert(percent_encode(set, x) =~= encode_byte(set, x[0]) + percent_encode(set, u));
    }
}

/// Where an image starts with a hexadecimal digit, that digit is the first
/// byte of what was encoded, kept as it was.
pub proof fn lemma_hex_start(set: EncodeSet, x: Seq<u8>, r: Seq<u8>)
    requires
        hex_free_start(r),
        (percent_encode(set, x) + r).len() > 0,
        hex_value((percent_encode(set, x) + r)[0]) is Some,
    ensures
        x.len() > 0,
        (percent_encode(set, x) + r)[0] == x[0],
        percent_encode(set, x) + r == seq![x[0]] + (percent_encode(set, x.drop_first()) + r),
{
    if x.len() == 0 {
        assert(percent_encode(set, x) + r =~= r);
    } else {
        lemma_encode_front(set, x);
        if set.escapes(x[0]) {
            assert((percent_encode(set, x) + r)[0] == PERCENT);
        } else {
            assert(percent_encode(set, x) + r =~= seq![x[0]] + (percent_encode(
                set,
                x.drop_first(),
            ) + r));
        }
    }
}

/// The image of bytes without an escape decodes to the bytes, where no
/// hexadecimal digit follows it.
pub proof fn lemma_decode_after_image(set: EncodeSet, x: Seq<u8>, r: Seq<u8>)
    requires
        escape_free(x),
        hex_free_start(r),
    ensures
        percent_decode(percent_encode(set, x) + r) == x + percent_decode(r),
    decreases x.len(),
{
    if x.len() == 0 {
        assert(percent_encode(set, x) + r =~= r);
        assert(x + percent_decode(r) =~= percent_decode(r));
    } else {
        let b = x[0];
        let u = x.drop_first();
        let t = percent_encode(set, u) + r;
        lemma_encode_front(set, x);
        assert forall|i: int| 0 <= i < u.len() implies !#[trigger] escape_at(u, i) by {
            assert(!escape_at(x, i + 1));
        }
        lemma_decode_after_image(set, u, r);
        assert(percent_encode(set, x) + r =~= encode_byte(set, b) + t);
        if b != PERCENT {
            lemma_decode_encoded_byte(set, b, t);
        } else {
            let w = seq![b] + t;
            if w.len() >= 3 && hex_value(w[1]) is Some && hex_value(w[2]) is Some {
                assert(t[0] == w[1] && t[1] == w[2]);
                lemma_hex_start(set, u, r);
                let t2 = percent_encode(set, u.drop_first()) + r;
                assert(t2[0] == t[1]);
                lemma_hex_start(set, u.drop_first(), r);
                assert(x[1] == u[0] && x[2] == u.drop_first()[0]);
                assert(escape_at(x, 0));
            }
            assert(!starts_with_escape(w));
            assert(w.subrange(1, w.len() as int) =~= t);
        }
        assert(seq![b] + (u + percent_decode(r)) =~= x + percent_decode(r));
    }
}

/// Bytes without an escape decode to themselves, where no hexadecimal
/// digit follows them.
pub proof fn lemma_decode_after_plain(x: Seq<u8>, r: Seq<u8>)
    requires
        escape_free(x),
        hex_free_start(r),
    ensures
        percent_decode(x + r) == x + percent_decode(r),
    decreases x.len(),
{
    if x.len() == 0 {
        assert(x + r =~= r);
        assert(x + percent_decode(r) =~= percent_decode(r));
    } else {
        let b = x[0];
        let u = x.drop_first();
        let w = x + r;
        assert forall|i: int| 0 <= i < u.len() implies !#[trigger] escape_at(u, i) by {
            assert(!escape_at(x, i + 1));
        }
        lemma_decode_after_plain(u, r);
        if starts_with_escape(w) {
            if x.len() >= 3 {
                assert(w[1] == x[1] && w[2] == x[2]);
                assert(escape_at(x, 0));
            } else if x.len() == 2 {
                assert(w[2] == r[0]);
            } else {
                assert(w[1] == r[0]);
            }
        }
        assert(w.subrange(1, w.len() as int) =~= u + r);
        assert(seq![b] + (u + percent_decode(r)) =~= x + percent_decode(r));
    }
}

/// A slice of bytes without an escape holds none.
pub proof fn lemma_slice_escape_free(s: Seq<u8>, a: int, b: int)
    requires
        escape_free(s),
        0 <= a <= b <= s.len(),
    ensures
        escape_free(s.subrange(a, b)),
{
    let t = s.subrange(a, b);
    assert forall|i: int| 0 <= i < t.len() implies !#[trigger] escape_at(t, i) by {
        assert(!escape_at(s, a + i));
        if i + 3 <= t.len() {
            assert(t[i] == s[a + i] && t[i + 1] == s[a + i + 1] && t[i + 2] == s[a + i + 2]);
        }
    }
}

/// Decoding undoes encoding: under every set, the image of bytes without
/// an escape decodes to the bytes.
pub proof fn lemma_decode_undoes_encode(set: EncodeSet, x: Seq<u8>)
    requires
        escape_free(x),
    ensures
        percent_decode(percent_encode(set, x)) == x,
{
    lemma_decode_after_image(set, x, Seq::empty());
    assert(percent_encode(set, x) + Seq::<u8>::empty() =~= percent_encode(set, x));
    assert(x + percent_decode(Seq::<u8>::empty()) =~= x);
}

fn hex_digit_of(n: u8) -> (r: u8)
    requires
        n < 16,
    ensures
        r == hex_digit(n),
{
    if n < 10 {
        0x30 + n
    } else {
        0x37 + n
    }
}

fn hex_value_of(c: u8) -> (r: Option<u8>)
    ensures
        r == hex_value(c),
{
    if 0x30 <= c && c <= 0x39 {
        Some(c - 0x30)
    } else if 0x41 <= c && c <= 0x46 {
        Some(c - 0x37)
    } else if 0x61 <= c && c <= 0x66 {
        Some(c - 0x57)
    } else {
        None
    }
}

/// Appends the image of `b` under `set` to `out`.
pub fn push_encoded(out: &mut Vec<u8>, set: EncodeSet, b: u8)
    ensures
        final(out)@ == old(out)@ + encode_byte(set, b),
{
    if set.must_escape(b) {
        out.push(PERCENT);
        out.push(hex_digit_of(b / 16));
        out.push(hex_digit_of(b % 16));
        assert(out@ =~= old(out)@ + escape(b));
    } else {
        out.push(b);
        assert(out@ =~= old(out)@ + seq![b]);
    }
}

/// Appends the image of `src[lo..hi]` under `set` to `out`.
pub fn encode_into(out: &mut Vec<u8>, set: EncodeSet, src: &[u8], lo: usize, hi: usize)
    requires
        lo <= hi <= src@.len(),
    ensures
        final(out)@ == old(out)@ + percent_encode(set, src@.subrange(lo as int, hi as int)),
{
    let mut i: usize = lo;
    assert(old(out)@ + percent_encode(set, src@.subrange(lo as int, lo as int)) =~= old(out)@);
    while i < hi
        invariant
            lo <= i <= hi <= src@.len(),
            out@ == old(out)@ + percent_encode(set, src@.subrange(lo as int, i as int)),
        decreases hi - i,
    {
        proof {
            let next = src@.subrange(lo as int, i + 1);
            assert(next.drop_last() =~= src@.subrange(lo as int, i as int));
            assert(next.last() == src@[i as int]);
            assert(old(out)@ + percent_encode(set, next) =~= old(out)@ + percent_encode(
                set,
                next.drop_last(),
            ) + encode_byte(set, next.last()));
        }
        push_encoded(out, set, src[i]);
        i = i + 1;
    }
}

/// Percent-encodes a byte string under a set.
pub fn encode(set: EncodeSet, src: &[u8]) -> (out: Vec<u8>)
    ensures
        out@ == percent_encode(set, src@),
{
    let mut out: Vec<u8> = Vec::new();
    encode_into(&mut out, set, src, 0, src.len());
    assert(src@.subrange(0, src@.len() as int) =~= src@);
    assert(Seq::<u8>::empty() + percent_encode(set, src@) =~= percent_encode(set, src@));
    out
}

/// Percent-decodes a byte string.
pub fn decode(src: &[u8]) -> (out: Vec<u8>)
    ensures
        out@ == percent_decode(src@),
{
    let n: usize = src.len();
    let mut out: Vec<u8> = Vec::new();
    let mut i: usize = 0;
    assert(src@.subrange(0, n as int) =~= src@);
    while i < n
        invariant
            i <= n == src@.len(),
            percent_decode(src@) == out@ + percent_decode(src@.subrange(i as int, n as int)),
        decreases n - i,
    {
        let ghost rest = src@.subrange(i as int, n as int);
        let mut taken: usize = 1;
        let mut byte: u8 = src[i];
        if src[i] == PERCENT && n - i >= 3 {
            match (hex_value_of(src[i + 1]), hex_value_of(src[i + 2])) {
                (Some(hi), Some(lo)) => {
                    taken = 3;
                    byte = hi * 16 + lo;
                },
                _ => {},
            }
        }
        proof {
            assert(rest.subrange(taken as int, rest.len() as int) =~= src@.subrange(
                i + taken,
                n as int,
            ));
            assert(percent_decode(rest) == seq![byte] + percent_decode(
                src@.subrange(i + taken, n as int),
            ));
        }
        out.push(byte);
        i = i + taken;
        assert(percent_decode(src@) =~= out@ + percent_decode(src@.subrange(i as int, n as int)));
    }
    assert(out@ + percent_decode(src@.subrange(n as int, n as int)) =~= out@);
    out
}

} // verus!
