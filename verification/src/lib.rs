//! A single-pass URL scanner and normaliser.
//!
//! [`parse_url`] splits an absolute URL into scheme, userinfo, host, port,
//! path, query and fragment, percent-encodes each component under its own
//! character set, and returns a [`Url`]: the normalised bytes together with
//! the offsets of the component boundaries in them.

pub mod charset;
pub mod laws;
pub mod model;
pub mod parser;
pub mod reparse;
pub mod scan;
pub mod text;
pub mod url;

pub use charset::EncodeSet;
pub use model::{ParseError, Scheme, UrlView};
pub use parser::{parse_bytes, parse_url};
pub use url::Url;
