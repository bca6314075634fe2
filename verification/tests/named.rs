use libsip::named::{
    parse_name, parse_named_field_param, parse_named_field_params, parse_named_field_value,
    parse_quoted_string, parse_unquoted_string, NamedHeader, Pair,
};
use libsip::uri::{Domain, Param, ParseError, Transport, Uri};

fn host(name: &str) -> Uri {
    Uri::sip(Domain::Domain(name.as_bytes().to_vec(), None))
}

fn pair(key: &str, value: &str) -> Pair {
    Pair { key: key.as_bytes().to_vec(), value: value.as_bytes().to_vec() }
}

#[test]
fn name_with_space_is_quoted() {
    let header = NamedHeader::new(host("example.com")).name(b"A. Bell");
    assert_eq!(header.render(), b"\"A. Bell\" <sip:example.com>".to_vec());
}

#[test]
fn empty_name_is_quoted() {
    let header = NamedHeader::new(host("example.com")).name(b"");
    assert_eq!(header.render(), b"\"\" <sip:example.com>".to_vec());
}

#[test]
fn plain_name_is_not_quoted() {
    let header = NamedHeader::new(host("example.com")).name(b"bob");
    assert_eq!(header.render(), b"bob <sip:example.com>".to_vec());
}

#[test]
fn header_without_name_is_the_uri() {
    let header = NamedHeader::new(host("example.com"));
    assert_eq!(header.display_name, None);
    assert!(header.params.is_empty());
    assert_eq!(header.render(), b"sip:example.com".to_vec());
}

#[test]
fn header_parameters_follow_in_order() {
    let header = NamedHeader::new(host("example.com"))
        .name(b"bob")
        .param(b"tag", b"a1")
        .param(b"q", b"1")
        .param(b"tag", b"b2");
    assert_eq!(header.params, vec![pair("tag", "b2"), pair("q", "1")]);
    assert_eq!(header.render(), b"bob <sip:example.com>;tag=b2;q=1".to_vec());
}

#[test]
fn single_param() {
    let (rest, (key, value)) = parse_named_field_param(b";tag=abc123 x").unwrap();
    assert_eq!(rest, b" x");
    assert_eq!(key, b"tag".to_vec());
    assert_eq!(value, b"abc123".to_vec());
    assert_eq!(parse_named_field_param(b"tag=abc"), Err(ParseError::MissingToken));
    assert_eq!(parse_named_field_param(b";tag"), Err(ParseError::MissingToken));
    assert_eq!(parse_named_field_param(b";t4g=abc"), Err(ParseError::MissingToken));
    assert_eq!(parse_named_field_param(b""), Err(ParseError::MissingToken));
    let (rest, (key, value)) = parse_named_field_param(b";=").unwrap();
    assert!(rest.is_empty() && key.is_empty() && value.is_empty());
}

#[test]
fn many_params() {
    let (rest, params) = parse_named_field_params(b";tag=abc;q=1;tag=zz;broken\r\n").unwrap();
    assert_eq!(rest, b";broken\r\n");
    assert_eq!(params, vec![pair("tag", "zz"), pair("q", "1")]);
    let (rest, params) = parse_named_field_params(b"nothing").unwrap();
    assert_eq!(rest, b"nothing");
    assert!(params.is_empty());
    let (rest, params) = parse_named_field_params(b"").unwrap();
    assert!(rest.is_empty() && params.is_empty());
}

#[test]
fn unquoted_name_needs_its_space() {
    let (rest, name) = parse_unquoted_string(b"bob <sip:h>").unwrap();
    assert_eq!(rest, b"<sip:h>");
    assert_eq!(name, b"bob".to_vec());
    assert_eq!(parse_unquoted_string(b"bob<sip:h>"), Err(ParseError::MissingToken));
    assert_eq!(parse_unquoted_string(b"bob"), Err(ParseError::MissingToken));
    let (rest, name) = parse_unquoted_string(b" x").unwrap();
    assert_eq!(rest, b"x");
    assert!(name.is_empty());
}

#[test]
fn quoted_name() {
    let (rest, name) = parse_quoted_string(b"\"A. Bell\" <sip:h>").unwrap();
    assert_eq!(rest, b" <sip:h>");
    assert_eq!(name, b"A. Bell".to_vec());
    let (rest, name) = parse_quoted_string(b"\"\"").unwrap();
    assert!(rest.is_empty() && name.is_empty());
    assert_eq!(parse_quoted_string(b"\"open"), Err(ParseError::MissingToken));
    assert_eq!(parse_quoted_string(b"bob"), Err(ParseError::MissingToken));
}

#[test]
fn name_tries_quoted_then_unquoted() {
    let (rest, name) = parse_name(b"\"A. Bell\" <sip:h>").unwrap();
    assert_eq!(rest, b" <sip:h>");
    assert_eq!(name, b"A. Bell".to_vec());
    let (rest, name) = parse_name(b"bob <sip:h>").unwrap();
    assert_eq!(rest, b"<sip:h>");
    assert_eq!(name, b"bob".to_vec());
    assert_eq!(parse_name(b"<sip:h>"), Err(ParseError::NoAlternative));
    assert_eq!(parse_name(b"\"open"), Err(ParseError::NoAlternative));
}

#[test]
fn field_value_forms() {
    let (rest, (name, uri)) = parse_named_field_value(b"\"A. Bell\" <sip:example.com>;tag=1").unwrap();
    assert_eq!(rest, b";tag=1");
    assert_eq!(name, Some(b"A. Bell".to_vec()));
    assert_eq!(uri, host("example.com"));

    let (rest, (name, uri)) = parse_named_field_value(b"bob <sip:example.com>").unwrap();
    assert!(rest.is_empty());
    assert_eq!(name, Some(b"bob".to_vec()));
    assert_eq!(uri, host("example.com"));

    let (rest, (name, uri)) = parse_named_field_value(b"sip:example.com\r\n").unwrap();
    assert_eq!(rest, b"\r\n");
    assert_eq!(name, None);
    assert_eq!(uri, host("example.com"));

    let (rest, (name, uri)) = parse_named_field_value(b"\t <sip:h;transport=tcp>;tag=9").unwrap();
    assert_eq!(rest, b";tag=9");
    assert_eq!(name, None);
    assert_eq!(uri, host("h").parameter(Param::Transport(Transport::Tcp)));
}

#[test]
fn leading_space_ends_an_empty_name() {
    let (rest, (name, uri)) = parse_named_field_value(b" <sip:h>").unwrap();
    assert!(rest.is_empty());
    assert_eq!(name, Some(Vec::new()));
    assert_eq!(uri, host("h"));
}

#[test]
fn field_value_without_uri_fails() {
    assert_eq!(parse_named_field_value(b"bob <example.com>"), Err(ParseError::MissingToken));
    assert_eq!(parse_named_field_value(b""), Err(ParseError::MissingToken));
    assert_eq!(parse_named_field_value(b"\"A. Bell\""), Err(ParseError::MissingToken));
}

#[test]
fn header_text_reads_back() {
    let header = NamedHeader::new(host("example.com")).name(b"A. Bell").param(b"tag", b"x7");
    let text = header.render();
    let (rest, (name, uri)) = parse_named_field_value(&text).unwrap();
    let (rest, params) = parse_named_field_params(rest).unwrap();
    assert!(rest.is_empty());
    assert_eq!(NamedHeader { display_name: name, uri, params }, header);
}

#[test]
fn header_without_name_gives_its_parameters_to_the_uri() {
    let header = NamedHeader::new(host("h")).param(b"tag", b"1");
    let text = header.render();
    assert_eq!(text, b"sip:h;tag=1".to_vec());
    let (rest, (name, uri)) = parse_named_field_value(&text).unwrap();
    assert!(rest.is_empty());
    assert_eq!(name, None);
    assert_eq!(uri, host("h").parameter(Param::Other(b"tag".to_vec(), b"1".to_vec())));
}

#[test]
fn header_texts_read_back() {
    let headers = vec![
        NamedHeader::new(host("example.com")),
        NamedHeader::new(host("example.com")).name(b"bob"),
        NamedHeader::new(host("example.com")).name(b""),
        NamedHeader::new(host("h").parameter(Param::Transport(Transport::Tcp)))
            .name(b"Alexander G. Bell")
            .param(b"tag", b"a73kszlfl")
            .param(b"expires", b"3600"),
    ];
    for header in headers {
        let text = header.render();
        let (rest, (name, uri)) = parse_named_field_value(&text).unwrap();
        let (rest, params) = parse_named_field_params(rest).unwrap();
        assert!(rest.is_empty());
        let back = NamedHeader { display_name: name, uri, params };
        assert_eq!(back, header);
        assert_eq!(back.render(), text);
    }
}
