use url_parser::model::{ParseError, Scheme};
use url_parser::parser::{
    classify, parse_fragment, parse_host, parse_path, parse_query, parse_scheme, parse_userinfo,
};
use url_parser::scan::{find_last_colon, find_stop, read_decimal, Stop};

#[test]
fn schemes_are_told_apart() {
    assert_eq!(classify(b"http"), Scheme::Http);
    assert_eq!(classify(b"https"), Scheme::Https);
    assert_eq!(classify(b"ws"), Scheme::Ws);
    assert_eq!(classify(b"wss"), Scheme::Wss);
    assert_eq!(classify(b"ftp"), Scheme::Ftp);
    assert_eq!(classify(b"file"), Scheme::File);
    assert_eq!(classify(b"HTTP"), Scheme::Other);
    assert_eq!(classify(b"httpx"), Scheme::Other);
    assert_eq!(classify(b""), Scheme::Other);
}

#[test]
fn special_schemes_and_their_ports() {
    assert!(Scheme::Http.is_special());
    assert!(Scheme::Ftp.is_special());
    assert!(!Scheme::File.is_special());
    assert!(!Scheme::Other.is_special());
    assert_eq!(Scheme::Https.default_port(), 443);
    assert_eq!(Scheme::Ftp.default_port(), 21);
    assert_eq!(Scheme::File.default_port(), 0);
    assert_eq!(Scheme::Other.default_port(), 0);
}

#[test]
fn scan_stops_at_the_first_stop_byte() {
    let text = b"a:b@c/d?e#f";
    assert_eq!(find_stop(text, 0, Stop::Colon), 1);
    assert_eq!(find_stop(text, 0, Stop::At), 3);
    assert_eq!(find_stop(text, 0, Stop::AfterHost), 5);
    assert_eq!(find_stop(text, 0, Stop::AfterPath), 7);
    assert_eq!(find_stop(text, 0, Stop::Hash), 9);
    assert_eq!(find_stop(text, 6, Stop::AfterHost), 7);
    assert_eq!(find_stop(text, 10, Stop::Hash), 11);
    assert_eq!(find_stop(text, 11, Stop::Hash), 11);
    assert_eq!(find_stop(text, 2, Stop::Colon), 11);
    assert_eq!(find_stop(b"", 0, Stop::Colon), 0);
}

#[test]
fn last_colon_within_a_range() {
    let text = b"a:b:c";
    assert_eq!(find_last_colon(text, 0, 5), Some(3));
    assert_eq!(find_last_colon(text, 0, 3), Some(1));
    assert_eq!(find_last_colon(text, 2, 3), None);
    assert_eq!(find_last_colon(text, 4, 5), None);
    assert_eq!(find_last_colon(text, 2, 2), None);
}

#[test]
fn decimal_digits_that_fit_sixteen_bits() {
    assert_eq!(read_decimal(b"8080", 0, 4), Some(8080));
    assert_eq!(read_decimal(b"x65535y", 1, 6), Some(65535));
    assert_eq!(read_decimal(b"65536", 0, 5), None);
    assert_eq!(read_decimal(b"000", 0, 3), Some(0));
    assert_eq!(read_decimal(b"12a", 0, 3), None);
    assert_eq!(read_decimal(b"+1", 0, 2), None);
    assert_eq!(read_decimal(b"", 0, 0), Some(0));
}

#[test]
fn scheme_stage() {
    let mut out: Vec<u8> = b">".to_vec();
    let found = parse_scheme(b"WsS://h", &mut out);
    assert_eq!(found, Ok((3, Scheme::Wss)));
    assert_eq!(out, b">wss");
    let mut none: Vec<u8> = Vec::new();
    assert_eq!(parse_scheme(b"abc", &mut none), Ok((0, Scheme::Other)));
    assert_eq!(none, b"");
    let mut bad: Vec<u8> = Vec::new();
    assert_eq!(
        parse_scheme(b"a_b:", &mut bad),
        Err(ParseError::InvalidSchemeCharacter)
    );
}

#[test]
fn userinfo_stage() {
    let text = b"ws://a b:c@h/";
    let mut out: Vec<u8> = Vec::new();
    assert_eq!(parse_userinfo(text, 5, &mut out), 11);
    assert_eq!(out, b"a%20b:c@");
    let mut none: Vec<u8> = Vec::new();
    assert_eq!(parse_userinfo(b"ws://h/", 5, &mut none), 5);
    assert_eq!(none, b"");
}

#[test]
fn host_stage() {
    let text = b"ws://h.x:81/p";
    let mut out: Vec<u8> = Vec::new();
    assert_eq!(parse_host(text, 5, Scheme::Ws, &mut out), Ok((11, 3, 81)));
    assert_eq!(out, b"h.x:81");
    let mut none: Vec<u8> = Vec::new();
    assert_eq!(
        parse_host(b"ws:///p", 5, Scheme::Ws, &mut none),
        Err(ParseError::HostMissing)
    );
    assert_eq!(none, b"");
}

#[test]
fn path_query_and_fragment_stages() {
    let text = b"//a b//c?d'e#f`g";
    let mut out: Vec<u8> = Vec::new();
    let path_stop = parse_path(text, 0, &mut out);
    assert_eq!(path_stop, 8);
    assert_eq!(out, b"/a%20b/c");
    let query_stop = parse_query(text, path_stop, &mut out);
    assert_eq!(query_stop, 12);
    assert_eq!(out, b"/a%20b/c?d%27e");
    parse_fragment(text, query_stop, &mut out);
    assert_eq!(out, b"/a%20b/c?d%27e#f%60g");
}
