//! What parsing means: the normalised image of a URL and the offsets of its
//! components, as a function of the input bytes.

use crate::charset::{encode_byte, percent_encode, EncodeSet};
use crate::scan::{all_digits, decimal, first_stop, last_colon, Stop, AT, COLON, SLASH};
use crate::text::is_ascii_bytes;
use vstd::prelude::*;
use vstd::utf8::valid_utf8;

verus! {

/// Why an input is not accepted.
#[derive(Clone, Copy, Debug, PartialEq, Eq)]
pub enum ParseError {
    /// A byte before the first colon is neither a letter nor one of `+`, `-`, `.`.
    InvalidSchemeCharacter,
    /// A special scheme is not followed by `//`.
    SpecialSchemeMissingFollowingSolidus,
    /// The host is empty.
    HostMissing,
    /// The scheme is not one whose grammar is implemented.
    UnsupportedScheme,
}

/// The schemes that are told apart.
#[derive(Clone, Copy, Debug, PartialEq, Eq)]
pub enum Scheme {
    Http,
    Https,
    Ws,
    Wss,
    Ftp,
    File,
    Other,
}

impl Scheme {
    /// The special schemes, which take an authority after `//`.
    pub open spec fn spec_is_special(self) -> bool {
        self is Http || self is Https || self is Ws || self is Wss || self is Ftp
    }

    /// The port of a special scheme where the URL names none.
    pub open spec fn spec_default_port(self) -> u16 {
        match self {
            Scheme::Http | Scheme::Ws => 80,
            Scheme::Https | Scheme::Wss => 443,
            Scheme::Ftp => 21,
            _ => 0,
        }
    }

    pub fn is_special(self) -> (r: bool)
        ensures
            r == self.spec_is_special(),
    {
        match self {
            Scheme::Http | Scheme::Https | Scheme::Ws | Scheme::Wss | Scheme::Ftp => true,
            _ => false,
        }
    }

    pub fn default_port(self) -> (r: u16)
        ensures
            r == self.spec_default_port(),
    {
        match self {
            Scheme::Http | Scheme::Ws => 80,
            Scheme::Https | Scheme::Wss => 443,
            Scheme::Ftp => 21,
            _ => 0,
        }
    }
}

/// The scheme that a lower-case name stands for: `http`, `https`, `ws`,
/// `wss`, `ftp` and `file`, each spelled in its ASCII bytes, or another.
pub open spec fn scheme_of(name: Seq<u8>) -> Scheme {
    if name == seq![0x68u8, 0x74, 0x74, 0x70] {
        Scheme::Http
    } else if name == seq![0x68u8, 0x74, 0x74, 0x70, 0x73] {
        Scheme::Https
    } else if name == seq![0x77u8, 0x73] {
        Scheme::Ws
    } else if name == seq![0x77u8, 0x73, 0x73] {
        Scheme::Wss
    } else if name == seq![0x66u8, 0x74, 0x70] {
        Scheme::Ftp
    } else if name == seq![0x66u8, 0x69, 0x6c, 0x65] {
        Scheme::File
    } else {
        Scheme::Other
    }
}

pub open spec fn is_upper(b: u8) -> bool {
    0x41 <= b <= 0x5a
}

/// A letter, or one of `+`, `-`, `.`.
pub open spec fn is_scheme_byte(b: u8) -> bool {
    is_upper(b) || 0x61 <= b <= 0x7a || b == 0x2b || b == 0x2d || b == 0x2e
}

pub open spec fn lower(b: u8) -> u8 {
    if is_upper(b) {
        (b + 0x20) as u8
    } else {
        b
    }
}

pub open spec fn lower_all(s: Seq<u8>) -> Seq<u8> {
    Seq::new(s.len(), |i: int| lower(s[i]))
}

/// The length of the scheme: the index of the first colon, or zero where
/// the input has no colon.
pub open spec fn scheme_len(s: Seq<u8>) -> int {
    let colon = first_stop(s, 0, Stop::Colon);
    if colon < s.len() {
        colon
    } else {
        0
    }
}

pub open spec fn scheme_ok(s: Seq<u8>) -> bool {
    forall|i: int| 0 <= i < scheme_len(s) ==> is_scheme_byte(#[trigger] s[i])
}

/// The scheme in lower case.
pub open spec fn scheme_name(s: Seq<u8>) -> Seq<u8> {
    lower_all(s.subrange(0, scheme_len(s)))
}

/// Whether `//` follows the colon that ends the scheme.
pub open spec fn has_slashes(s: Seq<u8>) -> bool {
    let n = scheme_len(s);
    n + 3 <= s.len() && s[n + 1] == SLASH && s[n + 2] == SLASH
}

/// Where the host starts: behind the first `@` at or after `from`, or at
/// `from` where there is none.
pub open spec fn host_start(s: Seq<u8>, from: int) -> int {
    let at = first_stop(s, from, Stop::At);
    if at < s.len() {
        at + 1
    } else {
        from
    }
}

/// The image of the text before `@`. It is split at its first colon into a
/// user name and a password, each encoded by itself; an empty user name
/// leaves nothing, not even the `@`.
pub open spec fn userinfo_image(span: Seq<u8>) -> Seq<u8> {
    let colon = first_stop(span, 0, Stop::Colon);
    let user = percent_encode(EncodeSet::Userinfo, span.subrange(0, colon));
    if colon == 0 {
        Seq::empty()
    } else if colon < span.len() {
        user + seq![COLON] + percent_encode(
            EncodeSet::Userinfo,
            span.subrange(colon + 1, span.len() as int),
        ) + seq![AT]
    } else {
        user + seq![AT]
    }
}

/// What the userinfo stage writes for the input from `from` on.
pub open spec fn userinfo_part(s: Seq<u8>, from: int) -> Seq<u8> {
    let at = first_stop(s, from, Stop::At);
    if at < s.len() {
        userinfo_image(s.subrange(from, at))
    } else {
        Seq::empty()
    }
}

/// The length of the host name within the host span: up to the last colon,
/// or all of it.
pub open spec fn hostname_len(span: Seq<u8>) -> int {
    let colon = last_colon(span);
    if colon < 0 {
        span.len() as int
    } else {
        colon
    }
}

/// The port of a host span. Without a colon, or with nothing behind the last
/// one, it is the scheme's; digits that fit sixteen bits give their number;
/// anything else gives zero.
pub open spec fn port_of(span: Seq<u8>, scheme: Scheme) -> u16 {
    let colon = last_colon(span);
    let digits = span.subrange(colon + 1, span.len() as int);
    if colon < 0 || digits.len() == 0 {
        scheme.spec_default_port()
    } else if all_digits(digits) && decimal(digits) <= 0xffff {
        decimal(digits) as u16
    } else {
        0
    }
}

/// The image of the byte at `i` of a path: nothing for a slash that follows
/// a slash, else its image under the path set.
pub open spec fn path_piece(s: Seq<u8>, i: int) -> Seq<u8> {
    if s[i] == SLASH && i > 0 && s[i - 1] == SLASH {
        Seq::empty()
    } else {
        encode_byte(EncodeSet::Path, s[i])
    }
}

/// The image of a path: runs of slashes collapsed to one slash, every other
/// byte encoded under the path set.
pub open spec fn path_image(s: Seq<u8>) -> Seq<u8>
    decreases s.len(),
{
    if s.len() == 0 {
        Seq::empty()
    } else {
        path_image(s.drop_last()) + path_piece(s, s.len() - 1)
    }
}

/// Whether the path set escapes no byte of `s` and no slash follows a slash.
pub open spec fn plain_path(s: Seq<u8>) -> bool {
    forall|i: int|
        0 <= i < s.len() ==> path_piece(s, i) == seq![#[trigger] s[i]]
}

/// Normalising keeps a path that holds only safe bytes and single slashes.
pub proof fn lemma_path_keeps_plain(s: Seq<u8>)
    requires
        plain_path(s),
    ensures
        path_image(s) == s,
    decreases s.len(),
{
    if s.len() > 0 {
        let t = s.drop_last();
        assert forall|i: int| 0 <= i < t.len() implies path_piece(t, i) == seq![#[trigger] t[i]] by {
            assert(path_piece(s, i) == seq![s[i]]);
        }
        lemma_path_keeps_plain(t);
        assert(path_piece(s, s.len() - 1) == seq![s[s.len() - 1]]);
        assert(t + seq![s.last()] =~= s);
    } else {
        assert(s =~= Seq::<u8>::empty());
    }
}

/// The image of a path is ASCII.
pub proof fn lemma_path_is_ascii(s: Seq<u8>)
    ensures
        is_ascii_bytes(path_image(s)),
    decreases s.len(),
{
    if s.len() > 0 {
        lemma_path_is_ascii(s.drop_last());
        let head = path_image(s.drop_last());
        let tail = path_piece(s, s.len() - 1);
        assert(is_ascii_bytes(tail));
        assert forall|i: int| 0 <= i < (head + tail).len() implies #[trigger] (head + tail)[i]
            < 0x80 by {
            if i >= head.len() {
                assert(tail[i - head.len()] < 0x80);
            }
        }
    }
}

/// The image of a path is at most three times as long as the path.
pub proof fn lemma_path_len(s: Seq<u8>)
    ensures
        path_image(s).len() <= 3 * s.len(),
    decreases s.len(),
{
    if s.len() > 0 {
        lemma_path_len(s.drop_last());
    }
}

/// The image of a query or a fragment with its delimiter: the delimiter
/// kept, what follows it encoded under `set`.
pub open spec fn tail_image(set: EncodeSet, span: Seq<u8>) -> Seq<u8> {
    if span.len() == 0 {
        Seq::empty()
    } else {
        seq![span[0]] + percent_encode(set, span.subrange(1, span.len() as int))
    }
}

/// A parsed URL as a mathematical value: the normalised bytes and the
/// offsets in them at which the components end.
pub struct UrlView {
    pub serialized: Seq<u8>,
    pub scheme_end: int,
    pub userinfo_end: int,
    pub host_end: int,
    pub authority_end: int,
    pub port: u16,
    pub path_end: int,
    pub query_end: int,
}

impl UrlView {
    pub open spec fn scheme(self) -> Seq<u8> {
        self.serialized.subrange(0, self.scheme_end)
    }

    pub open spec fn authority(self) -> Seq<u8> {
        self.serialized.subrange(self.scheme_end + 3, self.authority_end)
    }

    pub open spec fn host(self) -> Seq<u8> {
        self.serialized.subrange(self.userinfo_end, self.host_end)
    }

    pub open spec fn path(self) -> Seq<u8> {
        self.serialized.subrange(self.authority_end, self.path_end)
    }

    pub open spec fn path_and_query(self) -> Seq<u8> {
        self.serialized.subrange(self.authority_end, self.query_end)
    }

    /// The query without its `?`.
    pub open spec fn query(self) -> Seq<u8> {
        if self.path_end < self.query_end {
            self.serialized.subrange(self.path_end + 1, self.query_end)
        } else {
            Seq::empty()
        }
    }

    /// The fragment without its `#`.
    pub open spec fn fragment(self) -> Seq<u8> {
        if self.query_end < self.serialized.len() {
            self.serialized.subrange(self.query_end + 1, self.serialized.len() as int)
        } else {
            Seq::empty()
        }
    }

    /// The offsets never decrease and stay within the bytes.
    pub open spec fn ordered(self) -> bool {
        0 <= self.scheme_end <= self.userinfo_end <= self.host_end <= self.authority_end
            <= self.path_end <= self.query_end <= self.serialized.len()
    }

    /// Well-formedness: the offsets are ordered, `://` has room behind the
    /// scheme, and every component is text.
    pub open spec fn wf(self) -> bool {
        &&& self.ordered()
        &&& self.scheme_end + 3 <= self.userinfo_end
        &&& valid_utf8(self.scheme())
        &&& valid_utf8(self.authority())
        &&& valid_utf8(self.host())
        &&& valid_utf8(self.path())
        &&& valid_utf8(self.path_and_query())
        &&& valid_utf8(self.query())
        &&& valid_utf8(self.fragment())
    }
}

/// The offsets and bytes of an input that passed every test.
pub open spec fn assemble(s: Seq<u8>) -> UrlView {
    let n = scheme_len(s);
    let start = host_start(s, n + 3);
    let host_stop = first_stop(s, start, Stop::AfterHost);
    let path_stop = first_stop(s, host_stop, Stop::AfterPath);
    let query_stop = first_stop(s, path_stop, Stop::Hash);
    let userinfo = userinfo_part(s, n + 3);
    let host = s.subrange(start, host_stop);
    let path = path_image(s.subrange(host_stop, path_stop));
    let query = tail_image(EncodeSet::SpecialQuery, s.subrange(path_stop, query_stop));
    let fragment = tail_image(EncodeSet::Fragment, s.subrange(query_stop, s.len() as int));
    UrlView {
        serialized: scheme_name(s) + seq![COLON, SLASH, SLASH] + userinfo + host + path + query
            + fragment,
        scheme_end: n,
        userinfo_end: n + 3 + userinfo.len(),
        host_end: n + 3 + userinfo.len() + hostname_len(host),
        authority_end: n + 3 + userinfo.len() + host.len(),
        port: port_of(host, scheme_of(scheme_name(s))),
        path_end: n + 3 + userinfo.len() + host.len() + path.len(),
        query_end: n + 3 + userinfo.len() + host.len() + path.len() + query.len(),
    }
}

/// The result of parsing the bytes `s`: the error of the first test that
/// fails, or the assembled value.
pub open spec fn parse_spec(s: Seq<u8>) -> Result<UrlView, ParseError> {
    let start = host_start(s, scheme_len(s) + 3);
    if !scheme_ok(s) {
        Err(ParseError::InvalidSchemeCharacter)
    } else if !scheme_of(scheme_name(s)).spec_is_special() {
        Err(ParseError::UnsupportedScheme)
    } else if !has_slashes(s) {
        Err(ParseError::SpecialSchemeMissingFollowingSolidus)
    } else if first_stop(s, start, Stop::AfterHost) == start {
        Err(ParseError::HostMissing)
    } else {
        Ok(assemble(s))
    }
}

} // verus!
