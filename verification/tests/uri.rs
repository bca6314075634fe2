use libsip::parse::parse_uri;
use libsip::uri::{Domain, Param, ParseError, Schema, Transport, Uri, UriAuth};

fn domain(name: &str) -> Domain {
    Domain::Domain(name.as_bytes().to_vec(), None)
}

fn domain_port(name: &str, port: u16) -> Domain {
    Domain::Domain(name.as_bytes().to_vec(), Some(port))
}

fn auth(user: &str, password: &str) -> UriAuth {
    UriAuth::new(user.as_bytes()).password(password.as_bytes())
}

fn other(key: &str, value: &str) -> Param {
    Param::Other(key.as_bytes().to_vec(), value.as_bytes().to_vec())
}

#[test]
fn read_uri() {
    let expected_remains = vec![' ' as u8];
    assert_eq!(
        Ok((expected_remains.as_ref(), Uri::sip(domain("hostname")))),
        parse_uri(b"sip:hostname ")
    );

    let expected_remains = vec![' ' as u8];
    assert_eq!(
        Ok((expected_remains.as_ref(), Uri::sip(Domain::Ipv4(10, 1, 10, 1, None)))),
        parse_uri(b"sip:10.1.10.1 ")
    );

    let expected_remains = vec![' ' as u8];
    let expected = Uri::sip(domain("hostname.com")).auth(UriAuth::new(b"username"));
    assert_eq!(
        Ok((expected_remains.as_ref(), expected)),
        parse_uri(b"sip:username@hostname.com ")
    );

    let expected_remains = vec![' ' as u8];
    let expected = Uri::sip(domain("hostname.com")).auth(auth("username", "password"));
    assert_eq!(
        Ok((expected_remains.as_ref(), expected)),
        parse_uri(b"sip:username:password@hostname.com ")
    );

    let expected_remains = vec![' ' as u8];
    let expected = Uri::sip(domain_port("hostname.com", 8080)).auth(auth("username", "password"));
    assert_eq!(
        Ok((expected_remains.as_ref(), expected)),
        parse_uri(b"sip:username:password@hostname.com:8080 ")
    );

    let expected_remains = vec![' ' as u8];
    let expected = Uri::sip(domain_port("hostname.com", 8080))
        .parameter(Param::Transport(Transport::Udp))
        .auth(auth("username", "password"));
    assert_eq!(
        Ok((expected_remains.as_ref(), expected)),
        parse_uri(b"sip:username:password@hostname.com:8080;transport=UDP ")
    );
}

#[test]
fn write_uri() {
    let uri = Uri::sip(domain("hostname"));
    assert_eq!(b"sip:hostname".to_vec(), uri.render());

    let uri = Uri::sip(Domain::Ipv4(10, 1, 10, 1, None));
    assert_eq!(b"sip:10.1.10.1".to_vec(), uri.render());

    let uri = Uri::sip(domain("hostname.com")).auth(UriAuth::new(b"username"));
    assert_eq!(b"sip:username@hostname.com".to_vec(), uri.render());

    let uri = Uri::sip(domain("hostname.com")).auth(auth("username", "password"));
    assert_eq!(b"sip:username:password@hostname.com".to_vec(), uri.render());

    let uri = Uri::sip(domain_port("hostname.com", 8080)).auth(auth("username", "password"));
    assert_eq!(b"sip:username:password@hostname.com:8080".to_vec(), uri.render());

    let uri = Uri::sip(domain_port("hostname.com", 8080))
        .parameter(Param::Transport(Transport::Udp))
        .auth(auth("username", "password"));
    assert_eq!(
        b"sip:username:password@hostname.com:8080;transport=UDP".to_vec(),
        uri.render()
    );
}

#[test]
fn numeric_host_is_never_a_name() {
    let (rest, uri) = parse_uri(b"sip:10.1.10.1").unwrap();
    assert!(rest.is_empty());
    assert_eq!(uri.host, Domain::Ipv4(10, 1, 10, 1, None));
    let (_, uri) = parse_uri(b"sip:hostname").unwrap();
    assert_eq!(uri.host, domain("hostname"));
}

#[test]
fn octet_over_255_makes_a_name() {
    let (rest, uri) = parse_uri(b"sip:10.1.10.256").unwrap();
    assert!(rest.is_empty());
    assert_eq!(uri.host, domain("10.1.10.256"));
    let (rest, uri) = parse_uri(b"sip:10.1.10").unwrap();
    assert!(rest.is_empty());
    assert_eq!(uri.host, domain("10.1.10"));
}

#[test]
fn octet_with_leading_zeros() {
    let (rest, uri) = parse_uri(b"sip:010.0001.10.255:5060").unwrap();
    assert!(rest.is_empty());
    assert_eq!(uri.host, Domain::Ipv4(10, 1, 10, 255, Some(5060)));
    assert_eq!(uri.render(), b"sip:10.1.10.255:5060".to_vec());
}

#[test]
fn quad_leaves_what_follows_it() {
    let (rest, uri) = parse_uri(b"sip:1.2.3.4.com").unwrap();
    assert_eq!(rest, b".com");
    assert_eq!(uri.host, Domain::Ipv4(1, 2, 3, 4, None));
}

#[test]
fn port_limits() {
    let (rest, uri) = parse_uri(b"sip:host:65535").unwrap();
    assert!(rest.is_empty());
    assert_eq!(uri.host, domain_port("host", 65535));
    let (rest, uri) = parse_uri(b"sip:host:65536").unwrap();
    assert_eq!(rest, b":65536");
    assert_eq!(uri.host, domain("host"));
    let (rest, uri) = parse_uri(b"sip:host:0").unwrap();
    assert!(rest.is_empty());
    assert_eq!(uri.host, domain_port("host", 0));
    let (rest, uri) = parse_uri(b"sip:host:").unwrap();
    assert_eq!(rest, b":");
    assert_eq!(uri.host, domain("host"));
}

#[test]
fn credential_forms() {
    let (_, uri) = parse_uri(b"sip:username@hostname.com").unwrap();
    assert_eq!(uri.auth, Some(UriAuth { username: b"username".to_vec(), password: None }));
    let (_, uri) = parse_uri(b"sip:username:password@hostname.com").unwrap();
    assert_eq!(
        uri.auth,
        Some(UriAuth { username: b"username".to_vec(), password: Some(b"password".to_vec()) })
    );
    let (_, uri) = parse_uri(b"sip:hostname.com:8080").unwrap();
    assert_eq!(uri.auth, None);
    assert_eq!(uri.host, domain_port("hostname.com", 8080));
}

#[test]
fn port_and_parameter_compose() {
    let text = b"sip:username:password@hostname.com:8080;transport=UDP";
    let (rest, uri) = parse_uri(text).unwrap();
    assert!(rest.is_empty());
    assert_eq!(uri.host, domain_port("hostname.com", 8080));
    assert_eq!(uri.parameters, vec![Param::Transport(Transport::Udp)]);
    assert_eq!(uri.render(), text.to_vec());
}

#[test]
fn trailing_space_is_left() {
    let (rest, _) = parse_uri(b"sip:hostname ").unwrap();
    assert_eq!(rest, b" ");
}

#[test]
fn schemes() {
    let (_, uri) = parse_uri(b"sips:host").unwrap();
    assert_eq!(uri.scheme, Schema::Sips);
    assert_eq!(uri.render(), b"sips:host".to_vec());
    assert_eq!(Uri::sips(domain("host")), uri);
    assert_eq!(Uri::new(Schema::Sip, domain("host")), Uri::sip(domain("host")));
    assert_eq!(parse_uri(b"http:host"), Err(ParseError::MissingToken));
    assert_eq!(parse_uri(b"sipx:host"), Err(ParseError::MissingToken));
    assert_eq!(parse_uri(b"sip host"), Err(ParseError::MissingToken));
    assert_eq!(parse_uri(b""), Err(ParseError::MissingToken));
}

#[test]
fn missing_host_fails() {
    assert_eq!(parse_uri(b"sip:"), Err(ParseError::MissingToken));
    assert_eq!(parse_uri(b"sip: host"), Err(ParseError::MissingToken));
    assert_eq!(parse_uri(b"sip:user@"), Err(ParseError::MissingToken));
}

#[test]
fn transport_in_any_case() {
    let (_, uri) = parse_uri(b"sip:h;transport=udp").unwrap();
    assert_eq!(uri.parameters, vec![Param::Transport(Transport::Udp)]);
    let (_, uri) = parse_uri(b"sip:h;transport=Tcp").unwrap();
    assert_eq!(uri.parameters, vec![Param::Transport(Transport::Tcp)]);
    let (_, uri) = parse_uri(b"sip:h;transport=tLS").unwrap();
    assert_eq!(uri.parameters, vec![Param::Transport(Transport::Tls)]);
    let (_, uri) = parse_uri(b"sip:h;transport=sctp").unwrap();
    assert_eq!(uri.parameters, vec![Param::Transport(Transport::Sctp)]);
    assert_eq!(uri.render(), b"sip:h;transport=SCTP".to_vec());
    let (_, uri) = parse_uri(b"sip:h;transport=ws").unwrap();
    assert_eq!(uri.parameters, vec![other("transport", "ws")]);
    let (_, uri) = parse_uri(b"sip:h;Transport=UDP").unwrap();
    assert_eq!(uri.parameters, vec![other("Transport", "UDP")]);
}

#[test]
fn later_parameter_takes_the_place_of_an_earlier() {
    let (rest, uri) = parse_uri(b"sip:h;a=1;b=2;a=3").unwrap();
    assert!(rest.is_empty());
    assert_eq!(uri.parameters, vec![other("a", "3"), other("b", "2")]);
    assert_eq!(uri.render(), b"sip:h;a=3;b=2".to_vec());
    let (_, uri) = parse_uri(b"sip:h;transport=ws;x=1;transport=tcp").unwrap();
    assert_eq!(uri.parameters, vec![Param::Transport(Transport::Tcp), other("x", "1")]);
    let built = Uri::sip(domain("h")).parameter(other("a", "1")).parameter(other("a", "2"));
    assert_eq!(built.parameters, vec![other("a", "2")]);
}

#[test]
fn malformed_parameter_is_left() {
    let (rest, uri) = parse_uri(b"sip:h;a=1;b;c=2").unwrap();
    assert_eq!(rest, b";b;c=2");
    assert_eq!(uri.parameters, vec![other("a", "1")]);
    let (rest, uri) = parse_uri(b"sip:h;=").unwrap();
    assert!(rest.is_empty());
    assert_eq!(uri.parameters, vec![other("", "")]);
}

#[test]
fn round_trip_of_one_parameter() {
    let values = vec![
        Uri::sip(domain("example.com")),
        Uri::sips(domain_port("a-b.example", 5061)).auth(UriAuth::new(b"alice")),
        Uri::sip(Domain::Ipv4(0, 255, 7, 100, Some(1))).auth(auth("bob", "s3cret")),
        Uri::sip(domain("h")).parameter(Param::Transport(Transport::Tls)),
        Uri::sip(domain_port("h", 65535)).parameter(other("user", "phone")),
    ];
    for uri in values {
        let text = uri.render();
        let (rest, back) = parse_uri(&text).unwrap();
        assert!(rest.is_empty());
        assert_eq!(back, uri);
        assert_eq!(back.render(), text);
    }
}

#[test]
fn round_trip_of_many_parameters() {
    let uri = Uri::sips(domain_port("proxy.example.org", 5061))
        .auth(auth("carol", "pw1"))
        .parameter(other("user", "phone"))
        .parameter(Param::Transport(Transport::Sctp))
        .parameter(other("lr", ""))
        .parameter(other("ttl", "15"));
    let text = uri.render();
    assert_eq!(
        text,
        b"sips:carol:pw1@proxy.example.org:5061;user=phone;transport=SCTP;lr=;ttl=15".to_vec()
    );
    let (rest, back) = parse_uri(&text).unwrap();
    assert!(rest.is_empty());
    assert_eq!(back, uri);
    assert_eq!(back.render(), text);
}

#[test]
fn text_that_is_not_canonical_does_not_come_back() {
    let uri = Uri::sip(domain("10.1.10.1"));
    let (_, back) = parse_uri(&uri.render()).unwrap();
    assert_eq!(back, Uri::sip(Domain::Ipv4(10, 1, 10, 1, None)));
    let uri = Uri::sip(domain("h")).parameter(other("transport", "udp"));
    assert_eq!(uri.render(), b"sip:h;transport=udp".to_vec());
    let (_, back) = parse_uri(&uri.render()).unwrap();
    assert_eq!(back.render(), b"sip:h;transport=UDP".to_vec());
}
