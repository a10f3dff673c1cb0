//! The parsed URL: the normalised bytes, the offsets of the components in
//! them, and the accessors that cut the components out.

use crate::charset::{decode, percent_decode};
use crate::model::UrlView;
use crate::text::string_from_utf8;
use vstd::pervasive::unreached;
use vstd::prelude::*;
use vstd::slice::{slice_subrange, slice_to_vec};
use vstd::utf8::{encode_utf8, valid_utf8};

verus! {

/// A URL that was parsed. Its bytes are normalised and percent-encoded; its
/// offsets give every component without another scan.
#[derive(Debug)]
pub struct Url {
    serialized: Vec<u8>,
    scheme_end: usize,
    userinfo_end: usize,
    host_end: usize,
    authority_end: usize,
    port: u16,
    path_end: usize,
    query_end: usize,
}

impl View for Url {
    type V = UrlView;

    closed spec fn view(&self) -> UrlView {
        UrlView {
            serialized: self.serialized@,
            scheme_end: self.scheme_end as int,
            userinfo_end: self.userinfo_end as int,
            host_end: self.host_end as int,
            authority_end: self.authority_end as int,
            port: self.port,
            path_end: self.path_end as int,
            query_end: self.query_end as int,
        }
    }
}

impl Url {
    #[verifier::type_invariant]
    closed spec fn inv(self) -> bool {
        self@.wf()
    }

    /// Puts a value together from bytes and offsets that are well formed.
    pub(crate) fn from_parts(
        serialized: Vec<u8>,
        scheme_end: usize,
        userinfo_end: usize,
        host_end: usize,
        authority_end: usize,
        port: u16,
        path_end: usize,
        query_end: usize,
    ) -> (url: Url)
        requires
            (UrlView {
                serialized: serialized@,
                scheme_end: scheme_end as int,
                userinfo_end: userinfo_end as int,
                host_end: host_end as int,
                authority_end: authority_end as int,
                port,
                path_end: path_end as int,
                query_end: query_end as int,
            }).wf(),
        ensures
            url@ == (UrlView {
                serialized: serialized@,
                scheme_end: scheme_end as int,
                userinfo_end: userinfo_end as int,
                host_end: host_end as int,
                authority_end: authority_end as int,
                port,
                path_end: path_end as int,
                query_end: query_end as int,
            }),
    {
        Url {
            serialized,
            scheme_end,
            userinfo_end,
            host_end,
            authority_end,
            port,
            path_end,
            query_end,
        }
    }

    /// The text that the bytes from `from` to `to` encode.
    fn text(&self, from: usize, to: usize) -> (r: String)
        requires
            from <= to <= self@.serialized.len(),
            valid_utf8(self@.serialized.subrange(from as int, to as int)),
        ensures
            encode_utf8(r@) == self@.serialized.subrange(from as int, to as int),
    {
        let bytes = slice_to_vec(slice_subrange(self.serialized.as_slice(), from, to));
        match string_from_utf8(bytes) {
            Some(text) => text,
            None => unreached(),
        }
    }

    /// The scheme, in lower case.
    pub fn scheme(&self) -> (r: String)
        ensures
            encode_utf8(r@) == self@.scheme(),
    {
        proof {
            use_type_invariant(self);
        }
        self.text(0, self.scheme_end)
    }

    /// The userinfo, the host and the port, without the `://` before them.
    pub fn authority(&self) -> (r: String)
        ensures
            encode_utf8(r@) == self@.authority(),
    {
        proof {
            use_type_invariant(self);
        }
        self.text(self.scheme_end + 3, self.authority_end)
    }

    /// The host name, without userinfo and port.
    pub fn host(&self) -> (r: String)
        ensures
            encode_utf8(r@) == self@.host(),
    {
        proof {
            use_type_invariant(self);
        }
        self.text(self.userinfo_end, self.host_end)
    }

    /// The port: the one that the URL names, or the scheme's.
    pub fn port(&self) -> (r: u16)
        ensures
            r == self@.port,
    {
        self.port
    }

    /// The path and the query, with the `?` between them.
    pub fn path_and_query(&self) -> (r: String)
        ensures
            encode_utf8(r@) == self@.path_and_query(),
    {
        proof {
            use_type_invariant(self);
        }
        self.text(self.authority_end, self.query_end)
    }

    /// The path, with its leading slash.
    pub fn path(&self) -> (r: String)
        ensures
            encode_utf8(r@) == self@.path(),
    {
        proof {
            use_type_invariant(self);
        }
        self.text(self.authority_end, self.path_end)
    }

    /// The query, without its `?`.
    pub fn query(&self) -> (r: String)
        ensures
            encode_utf8(r@) == self@.query(),
    {
        proof {
            use_type_invariant(self);
        }
        if self.path_end < self.query_end {
            self.text(self.path_end + 1, self.query_end)
        } else {
            assert(self@.serialized.subrange(self.query_end as int, self.query_end as int)
                =~= Seq::<u8>::empty());
            self.text(self.query_end, self.query_end)
        }
    }

    /// The fragment, without its `#`.
    pub fn fragment(&self) -> (r: String)
        ensures
            encode_utf8(r@) == self@.fragment(),
    {
        proof {
            use_type_invariant(self);
        }
        let end: usize = self.serialized.len();
        if self.query_end < end {
            self.text(self.query_end + 1, end)
        } else {
            assert(self@.serialized.subrange(end as int, end as int) =~= Seq::<u8>::empty());
            self.text(end, end)
        }
    }

    /// The six offsets, in their order: the ends of the scheme, of the
    /// userinfo, of the host name, of the authority, of the path and of the
    /// query.
    pub fn offsets(&self) -> (r: (usize, usize, usize, usize, usize, usize))
        ensures
            r.0 == self@.scheme_end,
            r.1 == self@.userinfo_end,
            r.2 == self@.host_end,
            r.3 == self@.authority_end,
            r.4 == self@.path_end,
            r.5 == self@.query_end,
    {
        (
            self.scheme_end,
            self.userinfo_end,
            self.host_end,
            self.authority_end,
            self.path_end,
            self.query_end,
        )
    }

    /// The number of normalised bytes.
    pub fn len(&self) -> (r: usize)
        ensures
            r == self@.serialized.len(),
    {
        self.serialized.len()
    }

    pub fn is_empty(&self) -> (r: bool)
        ensures
            r == (self@.serialized.len() == 0),
    {
        self.serialized.len() == 0
    }

    /// The normalised bytes.
    pub fn as_bytes(&self) -> (r: &[u8])
        ensures
            r@ == self@.serialized,
    {
        self.serialized.as_slice()
    }

    /// The normalised bytes with every escape undone.
    pub fn decoded(&self) -> (r: Vec<u8>)
        ensures
            r@ == percent_decode(self@.serialized),
    {
        decode(self.serialized.as_slice())
    }

    /// The normalised bytes with every escape undone, as text. There is
    /// none where the decoded bytes are not UTF-8, which only an escape
    /// that the input already held can bring about.
    pub fn as_str(&self) -> (r: Option<String>)
        ensures
            r is Some <==> valid_utf8(percent_decode(self@.serialized)),
            r is Some ==> encode_utf8(r.unwrap()@) == percent_decode(self@.serialized),
    {
        string_from_utf8(self.decoded())
    }
}

} // verus!
