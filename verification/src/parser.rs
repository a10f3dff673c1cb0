//! The scanner: one pass over the input, stage by stage, each stage writing
//! the image of its component to the shared output and returning where in
//! the input it stopped.

use crate::charset::{encode_into, percent_encode, push_encoded, EncodeSet};
use crate::laws::{lemma_image_bounded, lemma_parse_well_formed};
use crate::model::{
    host_start, hostname_len, is_scheme_byte, lower, parse_spec, path_image, path_piece, port_of,
    scheme_len, scheme_name, scheme_of, scheme_ok, tail_image, userinfo_image, userinfo_part,
    ParseError, Scheme, UrlView,
};
use crate::scan::{find_last_colon, find_stop, first_stop, read_decimal, Stop, AT, COLON, SLASH};
use crate::text::{trim, trimmed};
use crate::url::Url;
use vstd::prelude::*;
use vstd::slice::slice_subrange;
use vstd::utf8::{encode_utf8, encode_utf8_valid_utf8, valid_utf8};

verus! {

/// Tells the schemes apart by their lower-case names.
pub fn classify(name: &[u8]) -> (r: Scheme)
    ensures
        r == scheme_of(name@),
{
    let n: usize = name.len();
    if n == 4 && name[0] == 0x68 && name[1] == 0x74 && name[2] == 0x74 && name[3] == 0x70 {
        assert(name@ =~= seq![0x68u8, 0x74, 0x74, 0x70]);
        Scheme::Http
    } else if n == 5 && name[0] == 0x68 && name[1] == 0x74 && name[2] == 0x74 && name[3] == 0x70
        && name[4] == 0x73 {
        assert(name@ =~= seq![0x68u8, 0x74, 0x74, 0x70, 0x73]);
        Scheme::Https
    } else if n == 2 && name[0] == 0x77 && name[1] == 0x73 {
        assert(name@ =~= seq![0x77u8, 0x73]);
        Scheme::Ws
    } else if n == 3 && name[0] == 0x77 && name[1] == 0x73 && name[2] == 0x73 {
        assert(name@ =~= seq![0x77u8, 0x73, 0x73]);
        Scheme::Wss
    } else if n == 3 && name[0] == 0x66 && name[1] == 0x74 && name[2] == 0x70 {
        assert(name@ =~= seq![0x66u8, 0x74, 0x70]);
        Scheme::Ftp
    } else if n == 4 && name[0] == 0x66 && name[1] == 0x69 && name[2] == 0x6c && name[3] == 0x65 {
        assert(name@ =~= seq![0x66u8, 0x69, 0x6c, 0x65]);
        Scheme::File
    } else {
        Scheme::Other
    }
}

/// The scheme stage. Finds the scheme, tests its bytes, writes it in lower
/// case, and returns its length and which scheme it is.
pub fn parse_scheme(src: &[u8], out: &mut Vec<u8>) -> (r: Result<(usize, Scheme), ParseError>)
    ensures
        match r {
            Ok((n, scheme)) => {
                &&& scheme_ok(src@)
                &&& n == scheme_len(src@)
                &&& scheme == scheme_of(scheme_name(src@))
                &&& final(out)@ == old(out)@ + scheme_name(src@)
            },
            Err(e) => !scheme_ok(src@) && e == ParseError::InvalidSchemeCharacter,
        },
{
    let colon: usize = find_stop(src, 0, Stop::Colon);
    let n: usize = if colon < src.len() {
        colon
    } else {
        0
    };
    let base: usize = out.len();
    let mut i: usize = 0;
    while i < n
        invariant
            i <= n <= src@.len(),
            n == scheme_len(src@),
            base == old(out)@.len(),
            out@.len() == base + i,
            out@.subrange(0, base as int) == old(out)@,
            forall|j: int| 0 <= j < i ==> is_scheme_byte(#[trigger] src@[j]),
            forall|j: int| 0 <= j < i ==> #[trigger] out@[base + j] == lower(src@[j]),
        decreases n - i,
    {
        let b: u8 = src[i];
        let upper: bool = 0x41 <= b && b <= 0x5a;
        let scheme_byte: bool = upper || (0x61 <= b && b <= 0x7a) || b == 0x2b || b == 0x2d || b
            == 0x2e;
        if !scheme_byte {
            return Err(ParseError::InvalidSchemeCharacter);
        }
        let ghost before = out@;
        if upper {
            out.push(b + 0x20);
        } else {
            out.push(b);
        }
        assert(out@.subrange(0, base as int) =~= before.subrange(0, base as int));
        i = i + 1;
    }
    let name = slice_subrange(out.as_slice(), base, out.len());
    assert(name@ =~= scheme_name(src@)) by {
        assert forall|j: int| 0 <= j < n implies name@[j] == #[trigger] scheme_name(src@)[j] by {
            assert(out@[base + j] == lower(src@[j]));
        }
    }
    assert(out@ =~= old(out)@ + scheme_name(src@)) by {
        assert(out@.subrange(base as int, out@.len() as int) == name@);
    }
    let scheme = classify(name);
    Ok((n, scheme))
}

/// The userinfo stage. Writes the image of what stands before the first
/// `@` at or after `from`, and returns where the host starts.
pub fn parse_userinfo(src: &[u8], from: usize, out: &mut Vec<u8>) -> (r: usize)
    requires
        from <= src@.len(),
    ensures
        r == host_start(src@, from as int),
        from <= r <= src@.len(),
        final(out)@ == old(out)@ + userinfo_part(src@, from as int),
{
    let at: usize = find_stop(src, from, Stop::At);
    if at >= src.len() {
        assert(out@ =~= old(out)@ + Seq::<u8>::empty());
        return from;
    }
    let span = slice_subrange(src, from, at);
    let colon: usize = find_stop(span, 0, Stop::Colon);
    if colon == 0 {
        assert(out@ =~= old(out)@ + Seq::<u8>::empty());
        return at + 1;
    }
    encode_into(out, EncodeSet::Userinfo, span, 0, colon);
    if colon < span.len() {
        out.push(COLON);
        encode_into(out, EncodeSet::Userinfo, span, colon + 1, span.len());
    }
    out.push(AT);
    assert(out@ =~= old(out)@ + userinfo_image(span@));
    at + 1
}

/// The host stage. Copies the host, with its port, as it stands, and
/// returns where it stops, how long the host name is, and the port.
pub fn parse_host(src: &[u8], from: usize, scheme: Scheme, out: &mut Vec<u8>) -> (r: Result<
    (usize, usize, u16),
    ParseError,
>)
    requires
        from <= src@.len(),
    ensures
        match r {
            Ok((stop, name_len, port)) => {
                let span = src@.subrange(from as int, stop as int);
                &&& from < stop <= src@.len()
                &&& stop == first_stop(src@, from as int, Stop::AfterHost)
                &&& name_len == hostname_len(span)
                &&& name_len <= stop - from
                &&& port == port_of(span, scheme)
                &&& final(out)@ == old(out)@ + span
            },
            Err(e) => {
                &&& first_stop(src@, from as int, Stop::AfterHost) == from
                &&& e == ParseError::HostMissing
                &&& final(out)@ == old(out)@
            },
        },
{
    let stop: usize = find_stop(src, from, Stop::AfterHost);
    if stop == from {
        return Err(ParseError::HostMissing);
    }
    let ghost span = src@.subrange(from as int, stop as int);
    let mut i: usize = from;
    while i < stop
        invariant
            from <= i <= stop <= src@.len(),
            out@ == old(out)@ + src@.subrange(from as int, i as int),
        decreases stop - i,
    {
        out.push(src[i]);
        i = i + 1;
        assert(out@ =~= old(out)@ + src@.subrange(from as int, i as int));
    }
    match find_last_colon(src, from, stop) {
        None => Ok((stop, stop - from, scheme.default_port())),
        Some(at) => {
            assert(span.subrange(at - from + 1, span.len() as int) =~= src@.subrange(
                at + 1,
                stop as int,
            ));
            let port: u16 = if at + 1 == stop {
                scheme.default_port()
            } else {
                match read_decimal(src, at + 1, stop) {
                    Some(v) => v,
                    None => 0,
                }
            };
            Ok((stop, at - from, port))
        },
    }
}

/// The path stage. Writes the image of the path that starts at `from`, and
/// returns where it stops.
pub fn parse_path(src: &[u8], from: usize, out: &mut Vec<u8>) -> (r: usize)
    requires
        from <= src@.len(),
    ensures
        r == first_stop(src@, from as int, Stop::AfterPath),
        from <= r <= src@.len(),
        final(out)@ == old(out)@ + path_image(src@.subrange(from as int, r as int)),
{
    let stop: usize = find_stop(src, from, Stop::AfterPath);
    let ghost span = src@.subrange(from as int, stop as int);
    let mut i: usize = from;
    assert(out@ =~= old(out)@ + path_image(span.subrange(0, 0)));
    while i < stop
        invariant
            from <= i <= stop <= src@.len(),
            span == src@.subrange(from as int, stop as int),
            out@ == old(out)@ + path_image(span.subrange(0, i - from)),
        decreases stop - i,
    {
        let ghost before = out@;
        let ghost next = span.subrange(0, i - from + 1);
        proof {
            assert(next.drop_last() =~= span.subrange(0, i - from));
            assert(path_piece(next, next.len() - 1) == path_piece(span, i - from));
        }
        let b: u8 = src[i];
        if b == SLASH && i > from && src[i - 1] == SLASH {
            assert(path_piece(span, i - from) =~= Seq::<u8>::empty());
        } else {
            push_encoded(out, EncodeSet::Path, b);
        }
        assert(out@ =~= before + path_piece(span, i - from));
        i = i + 1;
        assert(out@ =~= old(out)@ + path_image(next));
    }
    assert(span.subrange(0, stop - from) =~= span);
    stop
}

/// Writes the image of `src[from..to]`, a query or a fragment with its
/// delimiter in front.
fn write_tail(src: &[u8], from: usize, to: usize, set: EncodeSet, out: &mut Vec<u8>)
    requires
        from <= to <= src@.len(),
    ensures
        final(out)@ == old(out)@ + tail_image(set, src@.subrange(from as int, to as int)),
{
    let ghost span = src@.subrange(from as int, to as int);
    if from < to {
        out.push(src[from]);
        encode_into(out, set, src, from + 1, to);
        assert(span.subrange(1, span.len() as int) =~= src@.subrange(from + 1, to as int));
        assert(out@ =~= old(out)@ + (seq![span[0]] + percent_encode(
            set,
            span.subrange(1, span.len() as int),
        )));
    } else {
        assert(out@ =~= old(out)@ + Seq::<u8>::empty());
    }
}

/// The query stage. Writes the image of the query that starts at `from`,
/// and returns where it stops.
pub fn parse_query(src: &[u8], from: usize, out: &mut Vec<u8>) -> (r: usize)
    requires
        from <= src@.len(),
    ensures
        r == first_stop(src@, from as int, Stop::Hash),
        from <= r <= src@.len(),
        final(out)@ == old(out)@ + tail_image(
            EncodeSet::SpecialQuery,
            src@.subrange(from as int, r as int),
        ),
{
    let stop: usize = find_stop(src, from, Stop::Hash);
    write_tail(src, from, stop, EncodeSet::SpecialQuery, out);
    stop
}

/// The fragment stage. Writes the image of the rest of the input.
pub fn parse_fragment(src: &[u8], from: usize, out: &mut Vec<u8>)
    requires
        from <= src@.len(),
    ensures
        final(out)@ == old(out)@ + tail_image(
            EncodeSet::Fragment,
            src@.subrange(from as int, src@.len() as int),
        ),
{
    write_tail(src, from, src.len(), EncodeSet::Fragment, out);
}

/// Parses the bytes of a URL as they stand, without trimming them.
///
/// The result is the one that `parse_spec` gives for these bytes: the first
/// error in the order scheme bytes, scheme, slashes, host, or the
/// normalised bytes with their offsets. The value is well formed, and its
/// bytes are at most three times as many as the input's.
pub fn parse_bytes(src: &[u8]) -> (r: Result<Url, ParseError>)
    requires
        valid_utf8(src@),
    ensures
        match r {
            Ok(url) => {
                &&& parse_spec(src@) == Ok::<UrlView, ParseError>(url@)
                &&& url@.wf()
                &&& url@.serialized.len() <= 3 * src@.len()
            },
            Err(e) => parse_spec(src@) == Err::<UrlView, ParseError>(e),
        },
{
    let mut out: Vec<u8> = Vec::new();
    let (n, scheme) = match parse_scheme(src, &mut out) {
        Ok(found) => found,
        Err(e) => {
            return Err(e);
        },
    };
    if !scheme.is_special() {
        return Err(ParseError::UnsupportedScheme);
    }
    if !(src.len() - n >= 3 && src[n + 1] == SLASH && src[n + 2] == SLASH) {
        return Err(ParseError::SpecialSchemeMissingFollowingSolidus);
    }
    out.push(COLON);
    out.push(SLASH);
    out.push(SLASH);
    let ghost head = scheme_name(src@) + seq![COLON, SLASH, SLASH];
    assert(out@ =~= head);
    let scheme_end: usize = n;
    let start: usize = parse_userinfo(src, n + 3, &mut out);
    let userinfo_end: usize = out.len();
    let ghost userinfo = userinfo_part(src@, n + 3);
    let (host_stop, name_len, port) = match parse_host(src, start, scheme, &mut out) {
        Ok(found) => found,
        Err(e) => {
            return Err(e);
        },
    };
    let authority_end: usize = out.len();
    let ghost host = src@.subrange(start as int, host_stop as int);
    assert(authority_end == userinfo_end + host.len());
    let host_end: usize = userinfo_end + name_len;
    let path_stop: usize = parse_path(src, host_stop, &mut out);
    let path_end: usize = out.len();
    let ghost path = path_image(src@.subrange(host_stop as int, path_stop as int));
    let query_stop: usize = parse_query(src, path_stop, &mut out);
    let query_end: usize = out.len();
    let ghost query = tail_image(
        EncodeSet::SpecialQuery,
        src@.subrange(path_stop as int, query_stop as int),
    );
    parse_fragment(src, query_stop, &mut out);
    let ghost fragment = tail_image(
        EncodeSet::Fragment,
        src@.subrange(query_stop as int, src@.len() as int),
    );
    proof {
        assert(out@ == head + userinfo + host + path + query + fragment);
        assert(userinfo_end == n + 3 + userinfo.len());
        assert(path_end == authority_end + path.len());
        assert(query_end == path_end + query.len());
        lemma_parse_well_formed(src@);
        lemma_image_bounded(src@);
    }
    Ok(
        Url::from_parts(
            out,
            scheme_end,
            userinfo_end,
            host_end,
            authority_end,
            port,
            path_end,
            query_end,
        ),
    )
}

/// The bytes that are parsed for a text: its UTF-8 encoding without the
/// white space at its ends.
pub open spec fn input_bytes(text: Seq<char>) -> Seq<u8> {
    encode_utf8(trimmed(text))
}

/// Parses a URL.
///
/// The text is trimmed once, and its bytes are scanned once, left to
/// right. The result is the one that `parse_spec` gives for these bytes.
pub fn parse_url(input: &str) -> (r: Result<Url, ParseError>)
    ensures
        match r {
            Ok(url) => {
                &&& parse_spec(input_bytes(input@)) == Ok::<UrlView, ParseError>(url@)
                &&& url@.wf()
                &&& url@.serialized.len() <= 3 * input_bytes(input@).len()
            },
            Err(e) => parse_spec(input_bytes(input@)) == Err::<UrlView, ParseError>(e),
        },
{
    let text = trim(input);
    proof {
        encode_utf8_valid_utf8(text@);
    }
    parse_bytes(text.as_bytes())
}

} // verus!
