//! The text of a URI, and the builders of its values.

use crate::lexical::decimal;
use crate::lexical::push_decimal;
use crate::parse::put_param;
use crate::uri::{
    lemma_put_unique, params_view, schema_text, spec_put, transport_key, transport_text,
    unique_keys, Domain, DomainView, Param, ParamView, Schema, Transport, Uri, UriAuth,
    UriAuthView, UriView, AT_SIGN, COLON, DOT, EQUALS, SEMICOLON,
};
use vstd::prelude::*;

verus! {

/// The text of the credentials, with the `@` that ends them.
pub open spec fn render_auth(auth: Option<UriAuthView>) -> Seq<u8> {
    match auth {
        None => Seq::empty(),
        Some(a) => a.username + match a.password {
            Some(p) => seq![COLON] + p,
            None => Seq::empty(),
        } + seq![AT_SIGN],
    }
}

/// The text of a port, with the colon in front of it.
pub open spec fn render_port(port: Option<u16>) -> Seq<u8> {
    match port {
        None => Seq::empty(),
        Some(p) => seq![COLON] + decimal(p as nat),
    }
}

/// The text of a dotted quad.
pub open spec fn render_quad(q: (u8, u8, u8, u8)) -> Seq<u8> {
    decimal(q.0 as nat) + seq![DOT] + decimal(q.1 as nat) + seq![DOT] + decimal(q.2 as nat)
        + seq![DOT] + decimal(q.3 as nat)
}

/// The text of a host.
pub open spec fn render_host(host: DomainView) -> Seq<u8> {
    match host {
        DomainView::Domain(name, port) => name + render_port(port),
        DomainView::Ipv4(q, port) => render_quad(q) + render_port(port),
    }
}

/// The text of a key and a value: `;key=value`.
pub open spec fn render_pair(key: Seq<u8>, value: Seq<u8>) -> Seq<u8> {
    seq![SEMICOLON] + key + seq![EQUALS] + value
}

/// The text of the parameters, in the order in which they are held.
pub open spec fn render_params(ps: Seq<ParamView>) -> Seq<u8>
    decreases ps.len(),
{
    if ps.len() == 0 {
        Seq::empty()
    } else {
        render_params(ps.drop_last()) + render_pair(ps.last().key(), ps.last().value())
    }
}

/// The text of a URI.
pub open spec fn render_uri(u: UriView) -> Seq<u8> {
    schema_text(u.scheme) + seq![COLON] + render_auth(u.auth) + render_host(u.host)
        + render_params(u.parameters)
}

/// Appends `bytes` to `out`.
pub fn push_all(out: &mut Vec<u8>, bytes: &[u8])
    ensures
        final(out)@ == old(out)@ + bytes@,
{
    let mut i: usize = 0;
    while i < bytes.len()
        invariant
            i <= bytes.len(),
            out@ == old(out)@ + bytes@.subrange(0, i as int),
        decreases bytes.len() - i,
    {
        out.push(bytes[i]);
        assert(bytes@.subrange(0, i + 1) =~= bytes@.subrange(0, i as int).push(bytes@[i as int]));
        i += 1;
    }
    assert(bytes@.subrange(0, i as int) =~= bytes@);
}

/// Appends `;key=value` to `out`.
pub fn push_pair(out: &mut Vec<u8>, key: &[u8], value: &[u8])
    ensures
        final(out)@ == old(out)@ + render_pair(key@, value@),
{
    out.push(SEMICOLON);
    push_all(out, key);
    out.push(EQUALS);
    push_all(out, value);
    assert(out@ =~= old(out)@ + render_pair(key@, value@));
}

impl Schema {
    /// Appends the name of the scheme to `out`.
    pub fn write(&self, out: &mut Vec<u8>)
        ensures
            final(out)@ == old(out)@ + schema_text(*self),
    {
        out.push(0x73);
        out.push(0x69);
        out.push(0x70);
        match self {
            Schema::Sip => {},
            Schema::Sips => {
                out.push(0x73);
            },
        }
        assert(out@ =~= old(out)@ + schema_text(*self));
    }
}

impl Transport {
    /// Appends the name of the protocol, in capitals, to `out`.
    pub fn write(&self, out: &mut Vec<u8>)
        ensures
            final(out)@ == old(out)@ + transport_text(*self),
    {
        match self {
            Transport::Udp => {
                out.push(0x55);
                out.push(0x44);
                out.push(0x50);
            },
            Transport::Tcp => {
                out.push(0x54);
                out.push(0x43);
                out.push(0x50);
            },
            Transport::Tls => {
                out.push(0x54);
                out.push(0x4C);
                out.push(0x53);
            },
            Transport::Sctp => {
                out.push(0x53);
                out.push(0x43);
                out.push(0x54);
                out.push(0x50);
            },
        }
        assert(out@ =~= old(out)@ + transport_text(*self));
    }
}

/// Appends a port, where there is one, to `out`.
pub fn push_port(out: &mut Vec<u8>, port: Option<u16>)
    ensures
        final(out)@ == old(out)@ + render_port(port),
{
    match port {
        Some(p) => {
            out.push(COLON);
            push_decimal(out, p);
            assert(out@ =~= old(out)@ + render_port(port));
        },
        None => {
            assert(out@ =~= old(out)@ + render_port(port));
        },
    }
}

impl Domain {
    /// Appends the text of the host to `out`.
    pub fn write(&self, out: &mut Vec<u8>)
        ensures
            final(out)@ == old(out)@ + render_host(self@),
    {
        match self {
            Domain::Domain(name, port) => {
                push_all(out, name.as_slice());
                push_port(out, *port);
                assert(out@ =~= old(out)@ + render_host(self@));
            },
            Domain::Ipv4(a, b, c, d, port) => {
                push_decimal(out, *a as u16);
                out.push(DOT);
                push_decimal(out, *b as u16);
                out.push(DOT);
                push_decimal(out, *c as u16);
                out.push(DOT);
                push_decimal(out, *d as u16);
                assert(out@ =~= old(out)@ + render_quad((*a, *b, *c, *d)));
                push_port(out, *port);
                assert(out@ =~= old(out)@ + render_host(self@));
            },
        }
    }
}

impl UriAuth {
    /// Credentials with a user name and no password.
    pub fn new(username: &[u8]) -> (r: UriAuth)
        ensures
            r@ == (UriAuthView { username: username@, password: None }),
    {
        let mut name: Vec<u8> = Vec::new();
        push_all(&mut name, username);
        assert(name@ =~= username@);
        UriAuth { username: name, password: None }
    }

    /// The same credentials with `password`.
    pub fn password(self, password: &[u8]) -> (r: UriAuth)
        ensures
            r@ == (UriAuthView { username: self@.username, password: Some(password@) }),
    {
        let mut word: Vec<u8> = Vec::new();
        push_all(&mut word, password);
        assert(word@ =~= password@);
        UriAuth { username: self.username, password: Some(word) }
    }

    /// Appends the credentials and their `@` to `out`.
    pub fn write(&self, out: &mut Vec<u8>)
        ensures
            final(out)@ == old(out)@ + render_auth(Some(self@)),
    {
        push_all(out, self.username.as_slice());
        match &self.password {
            Some(p) => {
                out.push(COLON);
                push_all(out, p.as_slice());
            },
            None => {},
        }
        out.push(AT_SIGN);
        assert(out@ =~= old(out)@ + render_auth(Some(self@)));
    }
}

impl Param {
    /// Appends `;key=value` to `out`.
    pub fn write(&self, out: &mut Vec<u8>)
        ensures
            final(out)@ == old(out)@ + render_pair(self@.key(), self@.value()),
    {
        match self {
            Param::Transport(t) => {
                out.push(SEMICOLON);
                out.push(0x74);
                out.push(0x72);
                out.push(0x61);
                out.push(0x6E);
                out.push(0x73);
                out.push(0x70);
                out.push(0x6F);
                out.push(0x72);
                out.push(0x74);
                out.push(EQUALS);
                t.write(out);
                assert(out@ =~= old(out)@ + render_pair(transport_key(), transport_text(*t)));
            },
            Param::Other(key, value) => {
                push_pair(out, key.as_slice(), value.as_slice());
            },
        }
    }
}

impl Uri {
    /// A URI with a scheme and a host, without credentials or parameters.
    pub fn new(scheme: Schema, host: Domain) -> (r: Uri)
        ensures
            r@ == (UriView { scheme, host: host@, auth: None, parameters: Seq::empty() }),
            r.wf(),
    {
        let r = Uri { scheme, host, auth: None, parameters: Vec::new() };
        assert(params_view(r.parameters@) =~= Seq::empty());
        r
    }

    /// A `sip` URI of a host.
    pub fn sip(host: Domain) -> (r: Uri)
        ensures
            r@ == (UriView {
                scheme: Schema::Sip,
                host: host@,
                auth: None,
                parameters: Seq::empty(),
            }),
            r.wf(),
    {
        Uri::new(Schema::Sip, host)
    }

    /// A `sips` URI of a host.
    pub fn sips(host: Domain) -> (r: Uri)
        ensures
            r@ == (UriView {
                scheme: Schema::Sips,
                host: host@,
                auth: None,
                parameters: Seq::empty(),
            }),
            r.wf(),
    {
        Uri::new(Schema::Sips, host)
    }

    /// No two parameters have the same key.
    pub open spec fn wf(&self) -> bool {
        unique_keys(self@.parameters)
    }

    /// The same URI with the credentials `auth`.
    pub fn auth(self, auth: UriAuth) -> (r: Uri)
        ensures
            r@ == (UriView { auth: Some(auth@), ..self@ }),
    {
        Uri { scheme: self.scheme, host: self.host, auth: Some(auth), parameters: self.parameters }
    }

    /// The same URI with the parameter `p`, which takes the place of one with
    /// the same key.
    pub fn parameter(self, p: Param) -> (r: Uri)
        ensures
            r@ == (UriView { parameters: spec_put(self@.parameters, p@), ..self@ }),
            self.wf() ==> r.wf(),
    {
        let mut parameters = self.parameters;
        proof {
            if self.wf() {
                lemma_put_unique(self@.parameters, p@);
            }
        }
        put_param(&mut parameters, p);
        Uri { scheme: self.scheme, host: self.host, auth: self.auth, parameters }
    }

    /// Appends the text of the URI to `out`.
    pub fn write(&self, out: &mut Vec<u8>)
        ensures
            final(out)@ == old(out)@ + render_uri(self@),
    {
        self.scheme.write(out);
        out.push(COLON);
        match &self.auth {
            Some(a) => {
                a.write(out);
            },
            None => {},
        }
        self.host.write(out);
        let ghost head = out@;
        assert(head =~= old(out)@ + (schema_text(self.scheme) + seq![COLON] + render_auth(
            self@.auth,
        ) + render_host(self@.host)));
        let ghost ps = self@.parameters;
        let mut i: usize = 0;
        assert(ps.take(0) =~= Seq::empty());
        while i < self.parameters.len()
            invariant
                i <= self.parameters.len(),
                ps == params_view(self.parameters@),
                out@ == head + render_params(ps.take(i as int)),
            decreases self.parameters.len() - i,
        {
            self.parameters[i].write(out);
            proof {
                let next = ps.take(i + 1);
                assert(next.drop_last() =~= ps.take(i as int));
                assert(next.last() == self.parameters@[i as int]@);
                assert(out@ =~= head + render_params(next));
            }
            i += 1;
        }
        assert(ps.take(i as int) =~= ps);
        assert(out@ =~= old(out)@ + render_uri(self@));
    }

    /// The text of the URI.
    pub fn render(&self) -> (r: Vec<u8>)
        ensures
            r@ == render_uri(self@),
    {
        let mut out: Vec<u8> = Vec::new();
        self.write(&mut out);
        assert(out@ =~= render_uri(self@));
        out
    }
}

} // verus!
