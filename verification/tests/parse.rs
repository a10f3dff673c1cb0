use url_parser::parse_url;

#[test]
fn basic_parse_url() {
    let parsed_url = parse_url("http://www.example.org").unwrap();

    assert_eq!("http", parsed_url.scheme());
    assert_eq!("www.example.org", parsed_url.authority());
}

#[test]
fn path_parse_url() {
    let parsed_url = parse_url("http://www.example.org/scripts/").unwrap();
    println!("url_len: {}", parsed_url.len());

    assert_eq!("http", parsed_url.scheme());
    assert_eq!("www.example.org", parsed_url.authority());
    assert_eq!("/scripts/", parsed_url.path_and_query());
}

#[test]
fn path_and_query_parse_url() {
    let parsed_url = parse_url("http://www.example.org/scripts/?job=111&task=1").unwrap();

    assert_eq!("http", parsed_url.scheme());
    assert_eq!("www.example.org", parsed_url.authority());
    assert_eq!("/scripts/?job=111&task=1", parsed_url.path_and_query());
    assert_eq!("job=111&task=1", parsed_url.query());
}

#[test]
fn single_slash_path_parse_url() {
    let parsed_url = parse_url("http://www.example.org/").unwrap();

    assert_eq!("www.example.org", parsed_url.authority());
    assert_eq!("/", parsed_url.path());
}

#[test]
fn fragment_parse_url() {
    let parsed_url = parse_url("http://www.example.org/#introduction").unwrap();

    assert_eq!("/", parsed_url.path_and_query());
    assert_eq!("introduction", parsed_url.fragment());
}

#[test]
fn port_parse_url() {
    let parsed_url = parse_url("http://www.example.org:8080").unwrap();

    assert_eq!("www.example.org", parsed_url.host());
    assert_eq!(8080, parsed_url.port());
}
