//! What holds of every parse: the order of the offsets, that every
//! component of a parsed text is text, and that a plainly written input
//! comes back from its normalised image.

use crate::charset::{
    escape_free, lemma_decode_keeps_escape_free, lemma_encode_is_ascii, lemma_encode_keeps_safe,
    lemma_encode_len,
    percent_decode, percent_encode, safe_under, EncodeSet,
};
use crate::model::{
    host_start, hostname_len, is_upper, lemma_path_is_ascii, lemma_path_keeps_plain, lemma_path_len,
    parse_spec,
    path_image, plain_path, scheme_len, scheme_name, scheme_of, tail_image, userinfo_image,
    userinfo_part,
};
use crate::scan::{first_stop, lemma_first_stop, lemma_last_colon, Stop, AT, COLON, SLASH};
use crate::text::{
    is_ascii_bytes, is_white_space, lemma_ascii_is_utf8, lemma_boundary_after_ascii,
    lemma_slice_is_utf8, trimmed,
};
use vstd::prelude::*;
use vstd::utf8::{encode_utf8, valid_utf8, valid_utf8_concat};

verus! {

/// Whether the input is accepted: parsing it gives a value, not an error.
pub open spec fn accepted(s: Seq<u8>) -> bool {
    parse_spec(s) is Ok
}

/// The stages stop in order: each where the one before it stopped, or later.
pub proof fn lemma_stops_in_order(s: Seq<u8>)
    requires
        accepted(s),
    ensures
        ({
            let n = scheme_len(s);
            let start = host_start(s, n + 3);
            let host_stop = first_stop(s, start, Stop::AfterHost);
            let path_stop = first_stop(s, host_stop, Stop::AfterPath);
            let query_stop = first_stop(s, path_stop, Stop::Hash);
            0 <= n && n + 3 <= start < host_stop <= path_stop <= query_stop <= s.len()
        }),
{
    let n = scheme_len(s);
    lemma_first_stop(s, 0, Stop::Colon);
    lemma_first_stop(s, n + 3, Stop::At);
    let start = host_start(s, n + 3);
    lemma_first_stop(s, start, Stop::AfterHost);
    let host_stop = first_stop(s, start, Stop::AfterHost);
    lemma_first_stop(s, host_stop, Stop::AfterPath);
    let path_stop = first_stop(s, host_stop, Stop::AfterPath);
    lemma_first_stop(s, path_stop, Stop::Hash);
}

/// Monotonic offsets: in the result of every successful parse the offsets
/// never decrease, from zero up to the length of the normalised bytes.
pub proof fn lemma_offsets_monotonic(s: Seq<u8>)
    requires
        parse_spec(s) is Ok,
    ensures
        parse_spec(s).unwrap().ordered(),
        parse_spec(s).unwrap().scheme_end + 3 <= parse_spec(s).unwrap().userinfo_end,
{
    lemma_stops_in_order(s);
    let n = scheme_len(s);
    let start = host_start(s, n + 3);
    let host_stop = first_stop(s, start, Stop::AfterHost);
    lemma_last_colon(s.subrange(start, host_stop));
    assert(scheme_name(s).len() == n);
}

/// The image of the text before `@` is ASCII.
pub proof fn lemma_userinfo_is_ascii(span: Seq<u8>)
    ensures
        is_ascii_bytes(userinfo_image(span)),
{
    let colon = first_stop(span, 0, Stop::Colon);
    lemma_encode_is_ascii(EncodeSet::Userinfo, span.subrange(0, colon));
    lemma_encode_is_ascii(EncodeSet::Userinfo, span.subrange(colon + 1, span.len() as int));
}

/// The image of a query or fragment that starts with an ASCII delimiter is
/// ASCII.
pub proof fn lemma_tail_is_ascii(set: EncodeSet, span: Seq<u8>)
    requires
        span.len() > 0 ==> span[0] < 0x80,
    ensures
        is_ascii_bytes(tail_image(set, span)),
{
    lemma_encode_is_ascii(set, span.subrange(1, span.len() as int));
}

/// Every component of a parsed text is text: where the input is valid
/// UTF-8 and is accepted, the result is well formed.
pub proof fn lemma_parse_well_formed(s: Seq<u8>)
    requires
        valid_utf8(s),
        parse_spec(s) is Ok,
    ensures
        parse_spec(s).unwrap().wf(),
{
    lemma_stops_in_order(s);
    lemma_offsets_monotonic(s);
    let v = parse_spec(s).unwrap();
    let n = scheme_len(s);
    let start = host_start(s, n + 3);
    let host_stop = first_stop(s, start, Stop::AfterHost);
    let path_stop = first_stop(s, host_stop, Stop::AfterPath);
    let query_stop = first_stop(s, path_stop, Stop::Hash);
    let name = scheme_name(s);
    let userinfo = userinfo_part(s, n + 3);
    let host = s.subrange(start, host_stop);
    let path = path_image(s.subrange(host_stop, path_stop));
    let query_span = s.subrange(path_stop, query_stop);
    let query = tail_image(EncodeSet::SpecialQuery, query_span);
    let fragment_span = s.subrange(query_stop, s.len() as int);
    let fragment = tail_image(EncodeSet::Fragment, fragment_span);
    lemma_first_stop(s, n + 3, Stop::At);
    lemma_first_stop(s, start, Stop::AfterHost);
    lemma_first_stop(s, host_stop, Stop::AfterPath);
    lemma_first_stop(s, path_stop, Stop::Hash);
    lemma_last_colon(host);

    // the scheme
    assert(v.scheme() =~= name);
    assert(is_ascii_bytes(name)) by {
        assert forall|i: int| 0 <= i < name.len() implies #[trigger] name[i] < 0x80 by {
            assert(s.subrange(0, n)[i] == s[i]);
        }
    }
    lemma_ascii_is_utf8(name);

    // the host and the authority
    assert(s[start - 1] < 0x80);
    lemma_boundary_after_ascii(s, start - 1);
    lemma_slice_is_utf8(s, start, host_stop);
    let name_stop = start + hostname_len(host);
    assert(name_stop < host_stop ==> s[name_stop] == host[hostname_len(host)]);
    lemma_slice_is_utf8(s, start, name_stop);
    assert(v.host() =~= s.subrange(start, name_stop));
    if first_stop(s, n + 3, Stop::At) < s.len() {
        lemma_userinfo_is_ascii(s.subrange(n + 3, first_stop(s, n + 3, Stop::At)));
    }
    lemma_ascii_is_utf8(userinfo);
    valid_utf8_concat(userinfo, host);
    assert(v.authority() =~= userinfo + host);

    // the path, the query and the fragment
    lemma_path_is_ascii(s.subrange(host_stop, path_stop));
    lemma_tail_is_ascii(EncodeSet::SpecialQuery, query_span);
    lemma_tail_is_ascii(EncodeSet::Fragment, fragment_span);
    lemma_ascii_is_utf8(path);
    assert(v.path() =~= path);
    assert(v.path_and_query() =~= path + query);
    lemma_ascii_is_utf8(path + query);
    lemma_encode_is_ascii(EncodeSet::SpecialQuery, query_span.subrange(1, query_span.len() as int));
    lemma_encode_is_ascii(EncodeSet::Fragment, fragment_span.subrange(1, fragment_span.len() as int));
    if query_span.len() > 0 {
        assert(v.query() =~= percent_encode(
            EncodeSet::SpecialQuery,
            query_span.subrange(1, query_span.len() as int),
        ));
    }
    if fragment_span.len() > 0 {
        assert(v.fragment() =~= percent_encode(
            EncodeSet::Fragment,
            fragment_span.subrange(1, fragment_span.len() as int),
        ));
    }
    lemma_ascii_is_utf8(v.query());
    lemma_ascii_is_utf8(v.fragment());
}

/// The scheme of an accepted input ends at a colon that is there.
pub proof fn lemma_scheme_ends_at_colon(s: Seq<u8>)
    requires
        accepted(s),
    ensures
        0 < scheme_len(s) < s.len(),
        s[scheme_len(s)] == COLON,
        forall|i: int| 0 <= i < scheme_len(s) ==> #[trigger] s[i] != COLON,
{
    lemma_first_stop(s, 0, Stop::Colon);
    assert(scheme_name(s).len() == scheme_len(s));
    assert(scheme_name(s).len() > 0) by {
        assert(scheme_of(scheme_name(s)).spec_is_special());
    }
}

/// Whether the user name and the password before `@` are written as their
/// images are: the user name not empty, and but for the colon between the
/// two no byte that the userinfo set escapes.
pub open spec fn plain_userinfo(span: Seq<u8>) -> bool {
    let colon = first_stop(span, 0, Stop::Colon);
    &&& colon > 0
    &&& forall|i: int|
        0 <= i < span.len() && i != colon ==> !EncodeSet::Userinfo.escapes(#[trigger] span[i])
}

/// Whether an accepted input is written as its normalised image is: the
/// scheme in lower case, in every component only bytes that the
/// component's set leaves alone, a user name where there is an `@`, and no
/// slash behind a slash in the path.
pub open spec fn plain(s: Seq<u8>) -> bool {
    let n = scheme_len(s);
    let at = first_stop(s, n + 3, Stop::At);
    let start = host_start(s, n + 3);
    let host_stop = first_stop(s, start, Stop::AfterHost);
    let path_stop = first_stop(s, host_stop, Stop::AfterPath);
    let query_stop = first_stop(s, path_stop, Stop::Hash);
    &&& forall|i: int| 0 <= i < n ==> !is_upper(#[trigger] s[i])
    &&& at < s.len() ==> plain_userinfo(s.subrange(n + 3, at))
    &&& plain_path(s.subrange(host_stop, path_stop))
    &&& forall|i: int|
        path_stop < i < query_stop ==> !EncodeSet::SpecialQuery.escapes(#[trigger] s[i])
    &&& forall|i: int| query_stop < i < s.len() ==> !EncodeSet::Fragment.escapes(#[trigger] s[i])
}

/// The text before `@`, written plainly, is its own image up to the `@`.
pub proof fn lemma_userinfo_keeps_plain(span: Seq<u8>)
    requires
        plain_userinfo(span),
    ensures
        userinfo_image(span) == span + seq![AT],
{
    let colon = first_stop(span, 0, Stop::Colon);
    lemma_first_stop(span, 0, Stop::Colon);
    let user = span.subrange(0, colon);
    assert(safe_under(EncodeSet::Userinfo, user)) by {
        assert forall|i: int| 0 <= i < user.len() implies !EncodeSet::Userinfo.escapes(
            #[trigger] user[i],
        ) by {
            assert(user[i] == span[i]);
        }
    }
    lemma_encode_keeps_safe(EncodeSet::Userinfo, user);
    if colon < span.len() {
        let password = span.subrange(colon + 1, span.len() as int);
        assert(safe_under(EncodeSet::Userinfo, password)) by {
            assert forall|i: int| 0 <= i < password.len() implies !EncodeSet::Userinfo.escapes(
                #[trigger] password[i],
            ) by {
                assert(password[i] == span[colon + 1 + i]);
            }
        }
        lemma_encode_keeps_safe(EncodeSet::Userinfo, password);
        assert(user + seq![COLON] + password =~= span);
    } else {
        assert(user =~= span);
    }
}

/// The delimiter and what follows it, written plainly, are their own image.
pub proof fn lemma_tail_keeps_plain(set: EncodeSet, span: Seq<u8>)
    requires
        forall|i: int| 0 < i < span.len() ==> !set.escapes(#[trigger] span[i]),
    ensures
        tail_image(set, span) == span,
{
    if span.len() > 0 {
        let rest = span.subrange(1, span.len() as int);
        assert(safe_under(set, rest)) by {
            assert forall|i: int| 0 <= i < rest.len() implies !set.escapes(#[trigger] rest[i]) by {
                assert(rest[i] == span[i + 1]);
            }
        }
        lemma_encode_keeps_safe(set, rest);
        assert(seq![span[0]] + rest =~= span);
    } else {
        assert(span =~= Seq::<u8>::empty());
    }
}

/// A plainly written input is its own normalised image.
pub proof fn lemma_plain_is_kept(s: Seq<u8>)
    requires
        accepted(s),
        plain(s),
    ensures
        parse_spec(s).unwrap().serialized == s,
{
    lemma_stops_in_order(s);
    lemma_scheme_ends_at_colon(s);
    let n = scheme_len(s);
    let at = first_stop(s, n + 3, Stop::At);
    let start = host_start(s, n + 3);
    let host_stop = first_stop(s, start, Stop::AfterHost);
    let path_stop = first_stop(s, host_stop, Stop::AfterPath);
    let query_stop = first_stop(s, path_stop, Stop::Hash);
    let query_span = s.subrange(path_stop, query_stop);
    let fragment_span = s.subrange(query_stop, s.len() as int);
    lemma_first_stop(s, n + 3, Stop::At);

    assert(scheme_name(s) + seq![COLON, SLASH, SLASH] =~= s.subrange(0, n + 3));
    assert(userinfo_part(s, n + 3) =~= s.subrange(n + 3, start)) by {
        if at < s.len() {
            lemma_userinfo_keeps_plain(s.subrange(n + 3, at));
        }
    }
    lemma_path_keeps_plain(s.subrange(host_stop, path_stop));
    assert(tail_image(EncodeSet::SpecialQuery, query_span) == query_span) by {
        assert forall|i: int| 0 < i < query_span.len() implies !EncodeSet::SpecialQuery.escapes(
            #[trigger] query_span[i],
        ) by {
            assert(query_span[i] == s[path_stop + i]);
        }
        lemma_tail_keeps_plain(EncodeSet::SpecialQuery, query_span);
    }
    assert(tail_image(EncodeSet::Fragment, fragment_span) == fragment_span) by {
        assert forall|i: int| 0 < i < fragment_span.len() implies !EncodeSet::Fragment.escapes(
            #[trigger] fragment_span[i],
        ) by {
            assert(fragment_span[i] == s[query_stop + i]);
        }
        lemma_tail_keeps_plain(EncodeSet::Fragment, fragment_span);
    }
    assert(s.subrange(0, n + 3) + s.subrange(n + 3, start) + s.subrange(start, host_stop)
        + s.subrange(host_stop, path_stop) + query_span + fragment_span =~= s);
}

/// Round trip: an accepted input that is plainly written and holds no
/// escape comes back, byte for byte, when its normalised image is decoded.
pub proof fn lemma_round_trip(s: Seq<u8>)
    requires
        accepted(s),
        plain(s),
        escape_free(s),
    ensures
        percent_decode(parse_spec(s).unwrap().serialized) == s,
{
    lemma_plain_is_kept(s);
    lemma_decode_keeps_escape_free(s);
}

/// Whether a text has no white space at either end.
pub open spec fn trim_free(text: Seq<char>) -> bool {
    text.len() == 0 || (!is_white_space(text[0]) && !is_white_space(text.last()))
}

/// Trimming keeps a text without white space at its ends.
pub proof fn lemma_trim_keeps(text: Seq<char>)
    requires
        trim_free(text),
    ensures
        trimmed(text) == text,
{
}

/// Round trip of a text: where a text without white space at its ends is
/// accepted, plainly written and free of escapes, its normalised image
/// decodes to the bytes of the text.
pub proof fn lemma_round_trip_of_text(text: Seq<char>)
    requires
        trim_free(text),
        accepted(encode_utf8(text)),
        plain(encode_utf8(text)),
        escape_free(encode_utf8(text)),
    ensures
        percent_decode(parse_spec(encode_utf8(trimmed(text))).unwrap().serialized) == encode_utf8(
            text,
        ),
{
    lemma_trim_keeps(text);
    lemma_round_trip(encode_utf8(text));
}

/// The image of the text before `@` is at most three times as long as the
/// text with its `@`.
pub proof fn lemma_userinfo_len(span: Seq<u8>)
    ensures
        userinfo_image(span).len() <= 3 * (span.len() + 1),
{
    let colon = first_stop(span, 0, Stop::Colon);
    lemma_first_stop(span, 0, Stop::Colon);
    lemma_encode_len(EncodeSet::Userinfo, span.subrange(0, colon));
    if colon < span.len() {
        lemma_encode_len(EncodeSet::Userinfo, span.subrange(colon + 1, span.len() as int));
    }
}

/// The image of a query or fragment is at most three times as long as the
/// query or fragment.
pub proof fn lemma_tail_len(set: EncodeSet, span: Seq<u8>)
    ensures
        tail_image(set, span).len() <= 3 * span.len(),
{
    if span.len() > 0 {
        lemma_encode_len(set, span.subrange(1, span.len() as int));
    }
}

/// Bounded output: the normalised image of an accepted input is at most
/// three times as long as the input.
pub proof fn lemma_image_bounded(s: Seq<u8>)
    requires
        accepted(s),
    ensures
        parse_spec(s).unwrap().serialized.len() <= 3 * s.len(),
{
    lemma_stops_in_order(s);
    let n = scheme_len(s);
    let at = first_stop(s, n + 3, Stop::At);
    let start = host_start(s, n + 3);
    let host_stop = first_stop(s, start, Stop::AfterHost);
    let path_stop = first_stop(s, host_stop, Stop::AfterPath);
    let query_stop = first_stop(s, path_stop, Stop::Hash);
    lemma_first_stop(s, n + 3, Stop::At);
    assert(scheme_name(s).len() == n);
    if at < s.len() {
        lemma_userinfo_len(s.subrange(n + 3, at));
    }
    assert(userinfo_part(s, n + 3).len() <= 3 * (start - (n + 3)));
    lemma_path_len(s.subrange(host_stop, path_stop));
    lemma_tail_len(EncodeSet::SpecialQuery, s.subrange(path_stop, query_stop));
    lemma_tail_len(EncodeSet::Fragment, s.subrange(query_stop, s.len() as int));
}

} // verus!
