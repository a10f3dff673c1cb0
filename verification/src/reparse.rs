//! Parsing twice: what the normalised image of an input decodes to, that
//! this is text again, and that parsing it gives the first result again.

use crate::charset::{
    encode_byte, escape_at, escape_free, hex_free_start, lemma_decode_after_image,
    lemma_decode_after_plain, lemma_decode_after_raw, lemma_encode_front, lemma_slice_escape_free,
    percent_decode, percent_encode, percent_free, EncodeSet, PERCENT,
};
use crate::laws::{accepted, lemma_scheme_ends_at_colon, lemma_stops_in_order};
use crate::model::{
    assemble, has_slashes, host_start, is_scheme_byte, lower, parse_spec, path_image, path_piece,
    scheme_len, scheme_name, scheme_ok, tail_image, userinfo_image, userinfo_part,
};
use crate::scan::{
    first_stop, lemma_first_stop, lemma_first_stop_is, Stop, AT, COLON, HASH, QUESTION, SLASH,
};
use crate::text::{lemma_ascii_is_utf8, lemma_boundary_after_ascii, lemma_slice_is_utf8};
use vstd::prelude::*;
use vstd::utf8::{valid_utf8, valid_utf8_concat};

verus! {

/// A path without the slashes that follow a slash.
pub open spec fn squeeze(s: Seq<u8>) -> Seq<u8>
    decreases s.len(),
{
    if s.len() == 0 {
        Seq::empty()
    } else if s.len() >= 2 && s[s.len() - 1] == SLASH && s[s.len() - 2] == SLASH {
        squeeze(s.drop_last())
    } else {
        squeeze(s.drop_last()) + seq![s.last()]
    }
}

/// Squeezing keeps the first and the last byte.
pub proof fn lemma_squeeze_ends(s: Seq<u8>)
    requires
        s.len() > 0,
    ensures
        squeeze(s).len() > 0,
        squeeze(s)[0] == s[0],
        squeeze(s).last() == s.last(),
    decreases s.len(),
{
    let t = s.drop_last();
    if s.len() >= 2 {
        lemma_squeeze_ends(t);
        assert(t[0] == s[0]);
        assert(t.last() == s[s.len() - 2]);
    } else {
        assert(squeeze(t) =~= Seq::<u8>::empty());
        assert(squeeze(s) =~= seq![s.last()]);
    }
}

/// Squeezing brings in no stop byte.
pub proof fn lemma_squeeze_avoids(s: Seq<u8>, stop: Stop)
    requires
        forall|j: int| 0 <= j < s.len() ==> !stop.stops_at(#[trigger] s[j]),
    ensures
        forall|i: int| 0 <= i < squeeze(s).len() ==> !stop.stops_at(#[trigger] squeeze(s)[i]),
    decreases s.len(),
{
    if s.len() > 0 {
        let t = s.drop_last();
        assert forall|j: int| 0 <= j < t.len() implies !stop.stops_at(#[trigger] t[j]) by {
            assert(t[j] == s[j]);
        }
        lemma_squeeze_avoids(t, stop);
        assert(!stop.stops_at(s[s.len() - 1]));
        assert forall|i: int| 0 <= i < squeeze(s).len() implies !stop.stops_at(
            #[trigger] squeeze(s)[i],
        ) by {
            if i < squeeze(t).len() {
                assert(squeeze(s)[i] == squeeze(t)[i]);
            }
        }
    }
}

/// A squeezed path has the image of the path.
pub proof fn lemma_squeeze_same_image(s: Seq<u8>)
    ensures
        path_image(squeeze(s)) == path_image(s),
    decreases s.len(),
{
    if s.len() > 0 {
        let t = s.drop_last();
        let b = s.last();
        lemma_squeeze_same_image(t);
        if s.len() >= 2 && b == SLASH && s[s.len() - 2] == SLASH {
            assert(path_piece(s, s.len() - 1) =~= Seq::<u8>::empty());
            assert(path_image(t) + Seq::<u8>::empty() =~= path_image(t));
        } else {
            let q = squeeze(t) + seq![b];
            assert(q.drop_last() =~= squeeze(t));
            if t.len() > 0 {
                lemma_squeeze_ends(t);
                assert(q[q.len() - 2] == squeeze(t).last());
                assert(t.last() == s[s.len() - 2]);
            }
            assert(path_piece(q, q.len() - 1) == path_piece(s, s.len() - 1));
        }
    }
}

/// The image of a path is the image of the squeezed path under the path
/// set.
pub proof fn lemma_path_is_encoded_squeeze(x: Seq<u8>)
    ensures
        path_image(x) == percent_encode(EncodeSet::Path, squeeze(x)),
    decreases x.len(),
{
    if x.len() > 0 {
        let t = x.drop_last();
        let b = x.last();
        lemma_path_is_encoded_squeeze(t);
        if x.len() >= 2 && b == SLASH && x[x.len() - 2] == SLASH {
            assert(path_image(x) =~= path_image(t));
        } else {
            let q = squeeze(t) + seq![b];
            assert(q.drop_last() =~= squeeze(t));
            assert(q.last() == b);
        }
    }
}

/// The last two bytes of a squeezed path that does not end in a slash are
/// the last two bytes of the path.
pub proof fn lemma_squeeze_last_two(t: Seq<u8>)
    requires
        squeeze(t).len() >= 2,
        squeeze(t).last() != SLASH,
    ensures
        t.len() >= 2,
        squeeze(t).last() == t.last(),
        squeeze(t)[squeeze(t).len() - 2] == t[t.len() - 2],
{
    if t.len() > 0 {
        lemma_squeeze_ends(t);
        let u = t.drop_last();
        if u.len() > 0 {
            lemma_squeeze_ends(u);
        } else {
            assert(squeeze(u) =~= Seq::<u8>::empty());
        }
    }
}

/// Squeezing brings in no escape.
pub proof fn lemma_squeeze_escape_free(x: Seq<u8>)
    requires
        escape_free(x),
    ensures
        escape_free(squeeze(x)),
    decreases x.len(),
{
    if x.len() > 0 {
        let t = x.drop_last();
        let b = x.last();
        lemma_slice_escape_free(x, 0, x.len() - 1);
        assert(t =~= x.subrange(0, x.len() - 1));
        lemma_squeeze_escape_free(t);
        let q = squeeze(x);
        if !(x.len() >= 2 && b == SLASH && x[x.len() - 2] == SLASH) {
            assert forall|i: int| 0 <= i < q.len() implies !#[trigger] escape_at(q, i) by {
                if escape_at(q, i) {
                    if i + 3 <= squeeze(t).len() {
                        assert(q[i] == squeeze(t)[i] && q[i + 1] == squeeze(t)[i + 1] && q[i + 2]
                            == squeeze(t)[i + 2]);
                        assert(escape_at(squeeze(t), i));
                    } else {
                        assert(q[i] == squeeze(t)[i] && q[i + 1] == squeeze(t)[i + 1]);
                        lemma_squeeze_last_two(t);
                        assert(x[x.len() - 3] == t[t.len() - 2] && x[x.len() - 2] == t[t.len() - 1]);
                        assert(escape_at(x, x.len() - 3));
                    }
                }
            }
        }
    }
}

/// The image of a path without an escape decodes to the squeezed path,
/// where no hexadecimal digit follows it.
pub proof fn lemma_decode_after_path(x: Seq<u8>, rest: Seq<u8>)
    requires
        escape_free(x),
        hex_free_start(rest),
    ensures
        percent_decode(path_image(x) + rest) == squeeze(x) + percent_decode(rest),
{
    lemma_path_is_encoded_squeeze(x);
    lemma_squeeze_escape_free(x);
    lemma_decode_after_image(EncodeSet::Path, squeeze(x), rest);
}

/// The image of a path that starts with a slash starts with a slash.
pub proof fn lemma_path_image_start(x: Seq<u8>)
    requires
        x.len() > 0,
        x[0] == SLASH,
    ensures
        path_image(x).len() > 0,
        path_image(x)[0] == SLASH,
{
    lemma_path_is_encoded_squeeze(x);
    lemma_squeeze_ends(x);
    lemma_encode_front(EncodeSet::Path, squeeze(x));
    assert(encode_byte(EncodeSet::Path, SLASH) == seq![SLASH]);
}

/// The image of a query or fragment without an escape decodes to the query
/// or fragment, where no hexadecimal digit follows it.
pub proof fn lemma_decode_after_tail(set: EncodeSet, span: Seq<u8>, rest: Seq<u8>)
    requires
        escape_free(span),
        hex_free_start(rest),
        span.len() > 0 ==> span[0] != PERCENT,
    ensures
        percent_decode(tail_image(set, span) + rest) == span + percent_decode(rest),
{
    if span.len() == 0 {
        assert(tail_image(set, span) + rest =~= rest);
        assert(span + percent_decode(rest) =~= percent_decode(rest));
    } else {
        let first = seq![span[0]];
        let after = span.subrange(1, span.len() as int);
        lemma_slice_escape_free(span, 1, span.len() as int);
        lemma_decode_after_image(set, after, rest);
        assert(percent_free(first));
        lemma_decode_after_raw(first, percent_encode(set, after) + rest);
        assert(tail_image(set, span) + rest =~= first + (percent_encode(set, after) + rest));
        assert(first + (after + percent_decode(rest)) =~= span + percent_decode(rest));
    }
}

/// The userinfo as the input has it, with its `@`; nothing where the user
/// name is empty.
pub open spec fn raw_userinfo(s: Seq<u8>, from: int) -> Seq<u8> {
    let at = first_stop(s, from, Stop::At);
    if at < s.len() && first_stop(s.subrange(from, at), 0, Stop::Colon) > 0 {
        s.subrange(from, at + 1)
    } else {
        Seq::empty()
    }
}

/// The normalised image of an accepted input with its escapes undone: the
/// scheme in lower case, the userinfo unless the user name is empty, the
/// host, the squeezed path, the query and the fragment.
pub open spec fn plain_image(s: Seq<u8>) -> Seq<u8> {
    let n = scheme_len(s);
    let start = host_start(s, n + 3);
    let host_stop = first_stop(s, start, Stop::AfterHost);
    let path_stop = first_stop(s, host_stop, Stop::AfterPath);
    scheme_name(s) + seq![COLON, SLASH, SLASH] + raw_userinfo(s, n + 3) + s.subrange(
        start,
        host_stop,
    ) + squeeze(s.subrange(host_stop, path_stop)) + s.subrange(path_stop, s.len() as int)
}

/// The image of the text before `@`, where it holds no escape, decodes to
/// that text and the `@`, or to nothing where the user name is empty,
/// whatever follows it.
pub proof fn lemma_decode_after_userinfo(span: Seq<u8>, rest: Seq<u8>)
    requires
        escape_free(span),
    ensures
        percent_decode(userinfo_image(span) + rest) == (if first_stop(span, 0, Stop::Colon) > 0 {
            span + seq![AT]
        } else {
            Seq::empty()
        }) + percent_decode(rest),
{
    let colon = first_stop(span, 0, Stop::Colon);
    lemma_first_stop(span, 0, Stop::Colon);
    if colon == 0 {
        assert(userinfo_image(span) + rest =~= rest);
        assert(Seq::<u8>::empty() + percent_decode(rest) =~= percent_decode(rest));
    } else {
        let user = span.subrange(0, colon);
        let at = seq![AT];
        assert(percent_free(at));
        lemma_decode_after_raw(at, rest);
        lemma_slice_escape_free(span, 0, colon);
        assert((at + rest)[0] == AT);
        if colon < span.len() {
            let password = span.subrange(colon + 1, span.len() as int);
            lemma_slice_escape_free(span, colon + 1, span.len() as int);
            let sep = seq![COLON];
            assert(percent_free(sep));
            let r2 = percent_encode(EncodeSet::Userinfo, password) + (at + rest);
            let r1 = sep + r2;
            assert(r1[0] == COLON);
            lemma_decode_after_image(EncodeSet::Userinfo, password, at + rest);
            lemma_decode_after_raw(sep, r2);
            lemma_decode_after_image(EncodeSet::Userinfo, user, r1);
            assert(userinfo_image(span) + rest =~= percent_encode(EncodeSet::Userinfo, user) + r1);
            assert(user + (sep + (password + (at + percent_decode(rest)))) =~= span + at
                + percent_decode(rest));
        } else {
            lemma_decode_after_image(EncodeSet::Userinfo, user, at + rest);
            assert(userinfo_image(span) + rest =~= percent_encode(EncodeSet::Userinfo, user) + (at
                + rest));
            assert(user + (at + percent_decode(rest)) =~= span + at + percent_decode(rest));
        }
    }
}

/// Whether path, query and fragment, where they are not empty, start with
/// their delimiters.
pub open spec fn delimited(path_span: Seq<u8>, query_span: Seq<u8>, fragment_span: Seq<u8>) -> bool {
    &&& path_span.len() > 0 ==> path_span[0] == SLASH
    &&& query_span.len() > 0 ==> query_span[0] == QUESTION
    &&& fragment_span.len() > 0 ==> fragment_span[0] == HASH
}

/// The images of path, query and fragment, one behind the other, start
/// with no hexadecimal digit and decode to the squeezed path, the query and
/// the fragment.
pub proof fn lemma_decode_of_rest(path_span: Seq<u8>, query_span: Seq<u8>, fragment_span: Seq<u8>)
    requires
        escape_free(path_span),
        escape_free(query_span),
        escape_free(fragment_span),
        delimited(path_span, query_span, fragment_span),
    ensures
        hex_free_start(
            path_image(path_span) + tail_image(EncodeSet::SpecialQuery, query_span) + tail_image(
                EncodeSet::Fragment,
                fragment_span,
            ),
        ),
        percent_decode(
            path_image(path_span) + tail_image(EncodeSet::SpecialQuery, query_span) + tail_image(
                EncodeSet::Fragment,
                fragment_span,
            ),
        ) == squeeze(path_span) + query_span + fragment_span,
{
    let empty = Seq::<u8>::empty();
    let r5 = tail_image(EncodeSet::Fragment, fragment_span);
    let r4 = tail_image(EncodeSet::SpecialQuery, query_span) + r5;
    let r3 = path_image(path_span) + r4;
    lemma_decode_after_tail(EncodeSet::Fragment, fragment_span, empty);
    assert(r5 + empty =~= r5);
    assert(fragment_span + percent_decode(empty) =~= fragment_span);
    assert(percent_decode(r5) == fragment_span);
    assert(hex_free_start(r5)) by {
        if fragment_span.len() > 0 {
            assert(r5[0] == HASH);
        }
    }
    lemma_decode_after_tail(EncodeSet::SpecialQuery, query_span, r5);
    assert(percent_decode(r4) == query_span + fragment_span);
    assert(hex_free_start(r4)) by {
        if query_span.len() > 0 {
            assert(r4[0] == QUESTION);
        } else {
            assert(r4 =~= r5);
        }
    }
    lemma_decode_after_path(path_span, r4);
    assert(hex_free_start(r3)) by {
        if path_span.len() > 0 {
            lemma_path_image_start(path_span);
            assert(r3[0] == SLASH);
        } else {
            assert(r3 =~= r4);
        }
    }
    assert(path_image(path_span) + tail_image(EncodeSet::SpecialQuery, query_span) + r5 =~= r3);
    assert(squeeze(path_span) + (query_span + fragment_span) =~= squeeze(path_span) + query_span
        + fragment_span);
}

/// What the userinfo stage writes decodes to the userinfo as the input has
/// it, whatever follows.
pub proof fn lemma_decode_of_userinfo(s: Seq<u8>, from: int, rest: Seq<u8>)
    requires
        escape_free(s),
        0 <= from <= s.len(),
    ensures
        percent_decode(userinfo_part(s, from) + rest) == raw_userinfo(s, from) + percent_decode(
            rest,
        ),
{
    let at = first_stop(s, from, Stop::At);
    lemma_first_stop(s, from, Stop::At);
    if at < s.len() {
        let span = s.subrange(from, at);
        lemma_slice_escape_free(s, from, at);
        lemma_decode_after_userinfo(span, rest);
        assert(span + seq![AT] =~= s.subrange(from, at + 1));
    } else {
        assert(userinfo_part(s, from) + rest =~= rest);
        assert(raw_userinfo(s, from) + percent_decode(rest) =~= percent_decode(rest));
    }
}

/// The parts of a normalised image, one behind the other, decode part by
/// part.
pub proof fn lemma_decode_of_parts(
    head: Seq<u8>,
    s: Seq<u8>,
    from: int,
    host: Seq<u8>,
    path_span: Seq<u8>,
    query_span: Seq<u8>,
    fragment_span: Seq<u8>,
)
    requires
        0 <= from <= s.len(),
        percent_free(head),
        escape_free(s),
        escape_free(host),
        escape_free(path_span),
        escape_free(query_span),
        escape_free(fragment_span),
        delimited(path_span, query_span, fragment_span),
    ensures
        percent_decode(
            head + (userinfo_part(s, from) + (host + (path_image(path_span) + tail_image(
                EncodeSet::SpecialQuery,
                query_span,
            ) + tail_image(EncodeSet::Fragment, fragment_span)))),
        ) == head + (raw_userinfo(s, from) + (host + (squeeze(path_span) + query_span
            + fragment_span))),
{
    let r3 = path_image(path_span) + tail_image(EncodeSet::SpecialQuery, query_span) + tail_image(
        EncodeSet::Fragment,
        fragment_span,
    );
    let r2 = host + r3;
    let r1 = userinfo_part(s, from) + r2;
    lemma_decode_of_rest(path_span, query_span, fragment_span);
    lemma_decode_after_plain(host, r3);
    lemma_decode_of_userinfo(s, from, r2);
    lemma_decode_after_raw(head, r1);
}

/// The head of a normalised image, the scheme and `://`, holds no percent
/// sign.
pub proof fn lemma_head_percent_free(s: Seq<u8>)
    requires
        scheme_ok(s),
    ensures
        percent_free(scheme_name(s) + seq![COLON, SLASH, SLASH]),
{
    let n = scheme_len(s);
    let head = scheme_name(s) + seq![COLON, SLASH, SLASH];
    lemma_first_stop(s, 0, Stop::Colon);
    assert(scheme_name(s).len() == n);
    assert forall|i: int| 0 <= i < head.len() implies #[trigger] head[i] != PERCENT by {
        if i < n {
            assert(is_scheme_byte(s[i]));
            assert(head[i] == lower(s.subrange(0, n)[i]));
        } else {
            assert(head[i] == seq![COLON, SLASH, SLASH][i - n]);
        }
    }
}

/// In an accepted input the path, the query and the fragment, where they
/// are not empty, start with their delimiters.
pub proof fn lemma_delimiters(s: Seq<u8>)
    requires
        accepted(s),
    ensures
        ({
            let start = host_start(s, scheme_len(s) + 3);
            let host_stop = first_stop(s, start, Stop::AfterHost);
            let path_stop = first_stop(s, host_stop, Stop::AfterPath);
            let query_stop = first_stop(s, path_stop, Stop::Hash);
            delimited(
                s.subrange(host_stop, path_stop),
                s.subrange(path_stop, query_stop),
                s.subrange(query_stop, s.len() as int),
            )
        }),
{
    lemma_stops_in_order(s);
    let start = host_start(s, scheme_len(s) + 3);
    let host_stop = first_stop(s, start, Stop::AfterHost);
    let path_stop = first_stop(s, host_stop, Stop::AfterPath);
    let query_stop = first_stop(s, path_stop, Stop::Hash);
    lemma_first_stop(s, start, Stop::AfterHost);
    lemma_first_stop(s, host_stop, Stop::AfterPath);
    lemma_first_stop(s, path_stop, Stop::Hash);
    if host_stop < path_stop {
        assert(s.subrange(host_stop, path_stop)[0] == s[host_stop]);
    }
    if path_stop < query_stop {
        assert(s.subrange(path_stop, query_stop)[0] == s[path_stop]);
    }
    if query_stop < s.len() {
        assert(s.subrange(query_stop, s.len() as int)[0] == s[query_stop]);
    }
}

/// The normalised image of an accepted input, part by part.
pub proof fn lemma_image_in_parts(s: Seq<u8>)
    requires
        accepted(s),
    ensures
        ({
            let n = scheme_len(s);
            let start = host_start(s, n + 3);
            let host_stop = first_stop(s, start, Stop::AfterHost);
            let path_stop = first_stop(s, host_stop, Stop::AfterPath);
            let query_stop = first_stop(s, path_stop, Stop::Hash);
            parse_spec(s).unwrap().serialized == scheme_name(s) + seq![COLON, SLASH, SLASH] + (
            userinfo_part(s, n + 3) + (s.subrange(start, host_stop) + (path_image(
                s.subrange(host_stop, path_stop),
            ) + tail_image(EncodeSet::SpecialQuery, s.subrange(path_stop, query_stop)) + tail_image(
                EncodeSet::Fragment,
                s.subrange(query_stop, s.len() as int),
            ))))
        }),
{
    let n = scheme_len(s);
    let start = host_start(s, n + 3);
    let host_stop = first_stop(s, start, Stop::AfterHost);
    let path_stop = first_stop(s, host_stop, Stop::AfterPath);
    let query_stop = first_stop(s, path_stop, Stop::Hash);
    assert(parse_spec(s).unwrap().serialized =~= scheme_name(s) + seq![COLON, SLASH, SLASH] + (
    userinfo_part(s, n + 3) + (s.subrange(start, host_stop) + (path_image(
        s.subrange(host_stop, path_stop),
    ) + tail_image(EncodeSet::SpecialQuery, s.subrange(path_stop, query_stop)) + tail_image(
        EncodeSet::Fragment,
        s.subrange(query_stop, s.len() as int),
    )))));
}

/// The plain image of an accepted input, part by part.
pub proof fn lemma_plain_image_in_parts(s: Seq<u8>)
    requires
        accepted(s),
    ensures
        ({
            let n = scheme_len(s);
            let start = host_start(s, n + 3);
            let host_stop = first_stop(s, start, Stop::AfterHost);
            let path_stop = first_stop(s, host_stop, Stop::AfterPath);
            let query_stop = first_stop(s, path_stop, Stop::Hash);
            plain_image(s) == scheme_name(s) + seq![COLON, SLASH, SLASH] + (raw_userinfo(s, n + 3)
                + (s.subrange(start, host_stop) + (squeeze(s.subrange(host_stop, path_stop))
                + s.subrange(path_stop, query_stop) + s.subrange(query_stop, s.len() as int))))
        }),
{
    lemma_stops_in_order(s);
    let n = scheme_len(s);
    let start = host_start(s, n + 3);
    let host_stop = first_stop(s, start, Stop::AfterHost);
    let path_stop = first_stop(s, host_stop, Stop::AfterPath);
    let query_stop = first_stop(s, path_stop, Stop::Hash);
    assert(s.subrange(path_stop, query_stop) + s.subrange(query_stop, s.len() as int)
        =~= s.subrange(path_stop, s.len() as int));
    assert(plain_image(s) =~= scheme_name(s) + seq![COLON, SLASH, SLASH] + (raw_userinfo(s, n + 3)
        + (s.subrange(start, host_stop) + (squeeze(s.subrange(host_stop, path_stop)) + s.subrange(
        path_stop,
        query_stop,
    ) + s.subrange(query_stop, s.len() as int)))));
}

/// What the normalised image decodes to: for an accepted input without an
/// escape it is the input's plain image.
pub proof fn lemma_decode_of_image(s: Seq<u8>)
    requires
        accepted(s),
        escape_free(s),
    ensures
        percent_decode(parse_spec(s).unwrap().serialized) == plain_image(s),
{
    lemma_stops_in_order(s);
    let n = scheme_len(s);
    let start = host_start(s, n + 3);
    let host_stop = first_stop(s, start, Stop::AfterHost);
    let path_stop = first_stop(s, host_stop, Stop::AfterPath);
    let query_stop = first_stop(s, path_stop, Stop::Hash);
    let head = scheme_name(s) + seq![COLON, SLASH, SLASH];
    let host = s.subrange(start, host_stop);
    let path_span = s.subrange(host_stop, path_stop);
    let query_span = s.subrange(path_stop, query_stop);
    let fragment_span = s.subrange(query_stop, s.len() as int);
    lemma_head_percent_free(s);
    lemma_delimiters(s);
    lemma_slice_escape_free(s, start, host_stop);
    lemma_slice_escape_free(s, host_stop, path_stop);
    lemma_slice_escape_free(s, path_stop, query_stop);
    lemma_slice_escape_free(s, query_stop, s.len() as int);
    lemma_decode_of_parts(head, s, n + 3, host, path_span, query_span, fragment_span);
    lemma_image_in_parts(s);
    lemma_plain_image_in_parts(s);
}

/// Where the scan stops between parts: behind a part without a stop byte,
/// where a stop byte or the end follows.
pub proof fn lemma_stop_between(pre: Seq<u8>, mid: Seq<u8>, post: Seq<u8>, stop: Stop)
    requires
        forall|i: int| 0 <= i < mid.len() ==> !stop.stops_at(#[trigger] mid[i]),
        post.len() > 0 ==> stop.stops_at(post[0]),
    ensures
        first_stop(pre + mid + post, pre.len() as int, stop) == pre.len() + mid.len(),
{
    let w = pre + mid + post;
    assert forall|j: int| pre.len() <= j < pre.len() + mid.len() implies !stop.stops_at(
        #[trigger] w[j],
    ) by {
        assert(w[j] == mid[j - pre.len()]);
    }
    let at: int = (pre.len() + mid.len()) as int;
    if post.len() > 0 {
        assert(w[at] == post[0]);
    }
    lemma_first_stop_is(w, pre.len() as int, stop, at);
}

/// Whether an `@` that is dropped with an empty user name is the last one.
/// Where it is not, the text behind it is read as userinfo in the plain
/// image, and the second parse differs from the first.
pub open spec fn userinfo_settled(s: Seq<u8>) -> bool {
    let from = scheme_len(s) + 3;
    let at = first_stop(s, from, Stop::At);
    at < s.len() && first_stop(s.subrange(from, at), 0, Stop::Colon) == 0 ==> first_stop(
        s,
        at + 1,
        Stop::At,
    ) == s.len()
}

/// The scheme of the plain image is the scheme of the input in lower case.
pub proof fn lemma_plain_scheme(s: Seq<u8>)
    requires
        accepted(s),
    ensures
        scheme_len(plain_image(s)) == scheme_len(s),
        scheme_ok(plain_image(s)),
        scheme_name(plain_image(s)) == scheme_name(s),
        has_slashes(plain_image(s)),
{
    lemma_stops_in_order(s);
    lemma_scheme_ends_at_colon(s);
    let n = scheme_len(s);
    let w = plain_image(s);
    let name = scheme_name(s);
    let start = host_start(s, n + 3);
    let host_stop = first_stop(s, start, Stop::AfterHost);
    let path_stop = first_stop(s, host_stop, Stop::AfterPath);
    let post = seq![COLON, SLASH, SLASH] + raw_userinfo(s, n + 3) + s.subrange(start, host_stop)
        + squeeze(s.subrange(host_stop, path_stop)) + s.subrange(path_stop, s.len() as int);
    let empty = Seq::<u8>::empty();
    assert(w =~= empty + name + post);
    assert forall|i: int| 0 <= i < name.len() implies !Stop::Colon.stops_at(#[trigger] name[i]) by {
        assert(name[i] == lower(s.subrange(0, n)[i]));
        assert(s[i] != COLON);
    }
    assert(post[0] == COLON);
    lemma_stop_between(empty, name, post, Stop::Colon);
    assert(first_stop(w, 0, Stop::Colon) == n);
    assert(w.len() > n);
    assert forall|i: int| 0 <= i < n implies is_scheme_byte(#[trigger] w[i]) by {
        assert(w[i] == name[i]);
        assert(name[i] == lower(s.subrange(0, n)[i]));
        assert(is_scheme_byte(s[i]));
    }
    assert(scheme_name(w) =~= name) by {
        assert forall|i: int| 0 <= i < n implies #[trigger] scheme_name(w)[i] == name[i] by {
            assert(w.subrange(0, n)[i] == name[i]);
            assert(name[i] == lower(s.subrange(0, n)[i]));
        }
    }
    assert(w[n + 1] == post[1] && w[n + 2] == post[2]);
}

/// Where the scan of path, query and fragment stops in parts that are put
/// one behind the other.
pub proof fn lemma_stops_of_parts(
    pre: Seq<u8>,
    host: Seq<u8>,
    path: Seq<u8>,
    query: Seq<u8>,
    fragment: Seq<u8>,
)
    requires
        forall|i: int| 0 <= i < host.len() ==> !Stop::AfterHost.stops_at(#[trigger] host[i]),
        forall|i: int| 0 <= i < path.len() ==> !Stop::AfterPath.stops_at(#[trigger] path[i]),
        forall|i: int| 0 <= i < query.len() ==> !Stop::Hash.stops_at(#[trigger] query[i]),
        path.len() > 0 ==> path[0] == SLASH,
        query.len() > 0 ==> query[0] == QUESTION,
        fragment.len() > 0 ==> fragment[0] == HASH,
    ensures
        ({
            let w = pre + host + path + query + fragment;
            let a: int = (pre.len() + host.len()) as int;
            let b: int = a + path.len();
            &&& first_stop(w, pre.len() as int, Stop::AfterHost) == a
            &&& first_stop(w, a, Stop::AfterPath) == b
            &&& first_stop(w, b, Stop::Hash) == b + query.len()
        }),
{
    let w = pre + host + path + query + fragment;
    let after_host = path + query + fragment;
    assert(w =~= pre + host + after_host);
    lemma_stop_between(pre, host, after_host, Stop::AfterHost);
    let after_path = query + fragment;
    assert(w =~= (pre + host) + path + after_path);
    lemma_stop_between(pre + host, path, after_path, Stop::AfterPath);
    assert(w =~= (pre + host + path) + query + fragment);
    lemma_stop_between(pre + host + path, query, fragment, Stop::Hash);
}

/// In the plain image the host starts behind the userinfo that it keeps,
/// and the userinfo stage writes for it what it wrote for the input.
pub proof fn lemma_plain_userinfo(s: Seq<u8>)
    requires
        accepted(s),
        userinfo_settled(s),
    ensures
        host_start(plain_image(s), scheme_len(s) + 3) == scheme_len(s) + 3 + raw_userinfo(
            s,
            scheme_len(s) + 3,
        ).len(),
        userinfo_part(plain_image(s), scheme_len(s) + 3) == userinfo_part(s, scheme_len(s) + 3),
{
    lemma_stops_in_order(s);
    let n = scheme_len(s);
    let w = plain_image(s);
    let at = first_stop(s, n + 3, Stop::At);
    let start = host_start(s, n + 3);
    let host_stop = first_stop(s, start, Stop::AfterHost);
    let path_stop = first_stop(s, host_stop, Stop::AfterPath);
    let head = scheme_name(s) + seq![COLON, SLASH, SLASH];
    let host = s.subrange(start, host_stop);
    let path_span = s.subrange(host_stop, path_stop);
    let tail = s.subrange(path_stop, s.len() as int);
    let rest = host + squeeze(path_span) + tail;
    lemma_first_stop(s, n + 3, Stop::At);
    assert(head.len() == n + 3);
    if at < s.len() && first_stop(s.subrange(n + 3, at), 0, Stop::Colon) > 0 {
        let span = s.subrange(n + 3, at);
        let post = seq![AT] + rest;
        assert(w =~= head + span + post);
        assert forall|i: int| 0 <= i < span.len() implies !Stop::At.stops_at(#[trigger] span[i]) by {
            assert(span[i] == s[n + 3 + i]);
        }
        assert(post[0] == AT);
        lemma_stop_between(head, span, post, Stop::At);
        assert(w[at] == AT);
        assert(w.subrange(n + 3, at) =~= span);
    } else {
        if at < s.len() {
            lemma_first_stop(s.subrange(n + 3, at), 0, Stop::Colon);
            lemma_first_stop(s, at + 1, Stop::At);
        }
        assert forall|j: int| start <= j < s.len() implies !Stop::At.stops_at(#[trigger] s[j]) by {}
        assert forall|j: int| 0 <= j < path_span.len() implies !Stop::At.stops_at(
            #[trigger] path_span[j],
        ) by {
            assert(path_span[j] == s[host_stop + j]);
        }
        lemma_squeeze_avoids(path_span, Stop::At);
        let empty = Seq::<u8>::empty();
        assert(w =~= head + rest + empty);
        assert forall|i: int| 0 <= i < rest.len() implies !Stop::At.stops_at(#[trigger] rest[i]) by {
            if i < host.len() {
                assert(rest[i] == s[start + i]);
            } else if i < host.len() + squeeze(path_span).len() {
                assert(rest[i] == squeeze(path_span)[i - host.len()]);
            } else {
                assert(rest[i] == s[path_stop + (i - host.len() - squeeze(path_span).len())]);
            }
        }
        lemma_stop_between(head, rest, empty, Stop::At);
        assert(first_stop(w, n + 3, Stop::At) == w.len());
    }
}

/// Parsing the plain image of an accepted input gives what parsing the
/// input gave.
pub proof fn lemma_parse_of_plain_image(s: Seq<u8>)
    requires
        accepted(s),
        userinfo_settled(s),
    ensures
        parse_spec(plain_image(s)) == parse_spec(s),
{
    lemma_stops_in_order(s);
    lemma_plain_scheme(s);
    lemma_plain_userinfo(s);
    let n = scheme_len(s);
    let w = plain_image(s);
    let start = host_start(s, n + 3);
    let host_stop = first_stop(s, start, Stop::AfterHost);
    let path_stop = first_stop(s, host_stop, Stop::AfterPath);
    let query_stop = first_stop(s, path_stop, Stop::Hash);
    let pre = scheme_name(s) + seq![COLON, SLASH, SLASH] + raw_userinfo(s, n + 3);
    let host = s.subrange(start, host_stop);
    let path_span = s.subrange(host_stop, path_stop);
    let path = squeeze(path_span);
    let query = s.subrange(path_stop, query_stop);
    let fragment = s.subrange(query_stop, s.len() as int);
    lemma_first_stop(s, start, Stop::AfterHost);
    lemma_first_stop(s, host_stop, Stop::AfterPath);
    lemma_first_stop(s, path_stop, Stop::Hash);
    assert(query + fragment =~= s.subrange(path_stop, s.len() as int));
    assert(w =~= pre + host + path + query + fragment);
    assert forall|i: int| 0 <= i < host.len() implies !Stop::AfterHost.stops_at(
        #[trigger] host[i],
    ) by {
        assert(host[i] == s[start + i]);
    }
    assert forall|i: int| 0 <= i < path_span.len() implies !Stop::AfterPath.stops_at(
        #[trigger] path_span[i],
    ) by {
        assert(path_span[i] == s[host_stop + i]);
    }
    lemma_squeeze_avoids(path_span, Stop::AfterPath);
    assert forall|i: int| 0 <= i < query.len() implies !Stop::Hash.stops_at(#[trigger] query[i]) by {
        assert(query[i] == s[path_stop + i]);
    }
    if path_span.len() > 0 {
        lemma_squeeze_ends(path_span);
        assert(path_span[0] == s[host_stop]);
    } else {
        assert(path =~= Seq::<u8>::empty());
    }
    if query.len() > 0 {
        assert(query[0] == s[path_stop]);
    }
    if fragment.len() > 0 {
        assert(fragment[0] == s[query_stop]);
    }
    lemma_stops_of_parts(pre, host, path, query, fragment);
    let start_w = pre.len() as int;
    let host_stop_w = start_w + host.len();
    let path_stop_w = host_stop_w + path.len();
    let query_stop_w = path_stop_w + query.len();
    assert(host_start(w, n + 3) == start_w);
    assert(w.subrange(start_w, host_stop_w) =~= host);
    assert(w.subrange(host_stop_w, path_stop_w) =~= path);
    assert(w.subrange(path_stop_w, query_stop_w) =~= query);
    assert(w.subrange(query_stop_w, w.len() as int) =~= fragment);
    lemma_squeeze_same_image(path_span);
    assert(assemble(w) == assemble(s));
}

/// Idempotence: where an accepted input holds no escape, and the
/// `@` that is dropped with an empty user name is its last, parsing what its
/// normalised image decodes to gives the first result again, bytes, port
/// and offsets.
pub proof fn lemma_reparse(s: Seq<u8>)
    requires
        accepted(s),
        escape_free(s),
        userinfo_settled(s),
    ensures
        parse_spec(percent_decode(parse_spec(s).unwrap().serialized)) == parse_spec(s),
{
    lemma_decode_of_image(s);
    lemma_parse_of_plain_image(s);
}

/// Squeezing keeps bytes without a slash that stand at the end.
pub proof fn lemma_squeeze_append(a: Seq<u8>, c: Seq<u8>)
    requires
        forall|i: int| 0 <= i < c.len() ==> #[trigger] c[i] != SLASH,
    ensures
        squeeze(a + c) == squeeze(a) + c,
    decreases c.len(),
{
    if c.len() == 0 {
        assert(a + c =~= a);
        assert(squeeze(a) + c =~= squeeze(a));
    } else {
        let d = c.drop_last();
        assert forall|i: int| 0 <= i < d.len() implies #[trigger] d[i] != SLASH by {
            assert(c[i] != SLASH);
        }
        lemma_squeeze_append(a, d);
        assert((a + c).drop_last() =~= a + d);
        assert((a + c).last() == c.last());
        assert(c.last() != SLASH);
        assert(squeeze(a) + d + seq![c.last()] =~= squeeze(a) + c);
    }
}

/// How many bytes at the end of `x` are outside ASCII.
pub open spec fn wide_tail(x: Seq<u8>) -> int
    decreases x.len(),
{
    if x.len() == 0 || x.last() < 0x80 {
        0
    } else {
        1 + wide_tail(x.drop_last())
    }
}

pub proof fn lemma_wide_tail(x: Seq<u8>)
    ensures
        0 <= wide_tail(x) <= x.len(),
        forall|i: int| x.len() - wide_tail(x) <= i < x.len() ==> #[trigger] x[i] >= 0x80,
        wide_tail(x) < x.len() ==> x[x.len() - wide_tail(x) - 1] < 0x80,
    decreases x.len(),
{
    if !(x.len() == 0 || x.last() < 0x80) {
        let t = x.drop_last();
        lemma_wide_tail(t);
        assert forall|i: int| x.len() - wide_tail(x) <= i < x.len() implies #[trigger] x[i]
            >= 0x80 by {
            if i < t.len() {
                assert(t[i] >= 0x80);
            }
        }
    }
}

/// A squeezed text is text.
pub proof fn lemma_squeeze_is_utf8(x: Seq<u8>)
    requires
        valid_utf8(x),
    ensures
        valid_utf8(squeeze(x)),
    decreases x.len(),
{
    if x.len() > 0 {
        lemma_wide_tail(x);
        let k = x.len() - wide_tail(x);
        let tail = x.subrange(k, x.len() as int);
        assert forall|i: int| 0 <= i < tail.len() implies #[trigger] tail[i] != SLASH by {
            assert(tail[i] == x[k + i]);
        }
        if k == 0 {
            assert(tail =~= x);
            lemma_squeeze_append(Seq::empty(), x);
            assert(Seq::<u8>::empty() + x =~= x);
            assert(squeeze(Seq::<u8>::empty()) + x =~= x);
        } else {
            let b = x[k - 1];
            let body = x.subrange(0, k - 1);
            let front = x.subrange(0, k);
            lemma_boundary_after_ascii(x, k - 1);
            lemma_slice_is_utf8(x, 0, k - 1);
            lemma_slice_is_utf8(x, k, x.len() as int);
            lemma_squeeze_is_utf8(body);
            assert(front.drop_last() =~= body);
            assert(front.last() == b);
            let one = seq![b];
            assert(valid_utf8(one)) by {
                assert(one[0] < 0x80);
                lemma_ascii_is_utf8(one);
            }
            assert(valid_utf8(squeeze(front))) by {
                if !(front.len() >= 2 && b == SLASH && front[front.len() - 2] == SLASH) {
                    valid_utf8_concat(squeeze(body), one);
                }
            }
            lemma_squeeze_append(front, tail);
            assert(front + tail =~= x);
            valid_utf8_concat(squeeze(front), tail);
        }
    }
}

/// The plain image of an accepted text is text.
pub proof fn lemma_plain_image_is_utf8(s: Seq<u8>)
    requires
        valid_utf8(s),
        accepted(s),
    ensures
        valid_utf8(plain_image(s)),
{
    lemma_stops_in_order(s);
    lemma_scheme_ends_at_colon(s);
    lemma_plain_image_in_parts(s);
    let n = scheme_len(s);
    let at = first_stop(s, n + 3, Stop::At);
    let start = host_start(s, n + 3);
    let host_stop = first_stop(s, start, Stop::AfterHost);
    let path_stop = first_stop(s, host_stop, Stop::AfterPath);
    let query_stop = first_stop(s, path_stop, Stop::Hash);
    let head = scheme_name(s) + seq![COLON, SLASH, SLASH];
    let userinfo = raw_userinfo(s, n + 3);
    let host = s.subrange(start, host_stop);
    let path = squeeze(s.subrange(host_stop, path_stop));
    let query = s.subrange(path_stop, query_stop);
    let fragment = s.subrange(query_stop, s.len() as int);
    lemma_first_stop(s, n + 3, Stop::At);
    lemma_first_stop(s, start, Stop::AfterHost);
    lemma_first_stop(s, host_stop, Stop::AfterPath);
    lemma_first_stop(s, path_stop, Stop::Hash);
    assert(valid_utf8(head)) by {
        assert forall|i: int| 0 <= i < head.len() implies #[trigger] head[i] < 0x80 by {
            if i < n {
                assert(is_scheme_byte(s[i]));
                assert(head[i] == lower(s.subrange(0, n)[i]));
            } else {
                assert(head[i] == seq![COLON, SLASH, SLASH][i - n]);
            }
        }
        lemma_ascii_is_utf8(head);
    }
    lemma_boundary_after_ascii(s, n + 2);
    lemma_boundary_after_ascii(s, start - 1);
    assert(valid_utf8(userinfo)) by {
        if at < s.len() {
            lemma_slice_is_utf8(s, n + 3, at + 1);
        }
    }
    lemma_slice_is_utf8(s, start, host_stop);
    lemma_slice_is_utf8(s, host_stop, path_stop);
    lemma_squeeze_is_utf8(s.subrange(host_stop, path_stop));
    lemma_slice_is_utf8(s, path_stop, query_stop);
    lemma_slice_is_utf8(s, query_stop, s.len() as int);
    valid_utf8_concat(path, query);
    valid_utf8_concat(path + query, fragment);
    valid_utf8_concat(host, path + query + fragment);
    valid_utf8_concat(userinfo, host + (path + query + fragment));
    valid_utf8_concat(head, userinfo + (host + (path + query + fragment)));
}

/// Decoding gives text: the normalised image of an accepted text without
/// an escape decodes to valid UTF-8.
pub proof fn lemma_decoded_is_utf8(s: Seq<u8>)
    requires
        valid_utf8(s),
        accepted(s),
        escape_free(s),
    ensures
        valid_utf8(percent_decode(parse_spec(s).unwrap().serialized)),
{
    lemma_decode_of_image(s);
    lemma_plain_image_is_utf8(s);
}

} // verus!
