//! The parsers of the URI grammar. Each reads at a position of the input and
//! returns what the grammar gives there.

use crate::lexical::byte_is;
use crate::lexical::copy_range;
use crate::lexical::number;
use crate::lexical::same_bytes;
use crate::lexical::scan;
use crate::lexical::Class;
use crate::uri::{
    agrees, key_pos, lemma_put_unique, params_view, schema_text, spec_auth, spec_classify,
    spec_dot_octet, spec_host, spec_pair, spec_params, spec_port, spec_put, spec_quad,
    spec_schema, spec_transport, spec_uri, transport_key, transport_text, unique_keys, upper,
    upper_text, Domain, Param, ParseError, Schema, Transport, Uri, UriAuth, AT_SIGN, COLON, DOT,
    EQUALS, SEMICOLON,
};
use vstd::prelude::*;
use vstd::slice::slice_subrange;

verus! {

/// Whether the bytes from `from` up to `to` are `s`, `i`, `p`.
fn is_sip(input: &[u8], from: usize, to: usize) -> (r: bool)
    requires
        from <= to <= input.len(),
    ensures
        r == (input@.subrange(from as int, to as int) == schema_text(Schema::Sip)),
{
    let r = to - from == 3 && input[from] == 0x73 && input[from + 1] == 0x69 && input[from + 2]
        == 0x70;
    proof {
        let w = input@.subrange(from as int, to as int);
        if r {
            assert(w =~= schema_text(Schema::Sip));
        } else if w.len() == 3 {
            assert(w[0] == input@[from as int] && w[1] == input@[from + 1] && w[2] == input@[from
                + 2]);
        }
    }
    r
}

/// Reads the scheme and its colon.
pub fn schema_at(input: &[u8], i: usize) -> (r: Option<(Schema, usize)>)
    requires
        i <= input.len(),
    ensures
        match spec_schema(input@, i as int) {
            Some((v, e)) => r == Some((v, e as usize)) && i < e <= input.len(),
            None => r.is_none(),
        },
{
    let e = scan(input, i, Class::Alpha);
    if !byte_is(input, e, COLON) {
        return None;
    }
    if is_sip(input, i, e) {
        Some((Schema::Sip, e + 1))
    } else if e - i == 4 && is_sip(input, i, e - 1) && input[e - 1] == 0x73 {
        proof {
            assert(input@.subrange(i as int, e as int) =~= input@.subrange(i as int, e - 1).push(
                0x73u8,
            ));
            assert(input@.subrange(i as int, e as int) =~= schema_text(Schema::Sips));
        }
        Some((Schema::Sips, e + 1))
    } else {
        proof {
            let w = input@.subrange(i as int, e as int);
            if w.len() == 4 {
                assert(input@.subrange(i as int, e - 1) =~= w.drop_last());
                assert(schema_text(Schema::Sips).drop_last() =~= schema_text(Schema::Sip));
                assert(w[3] == input@[e - 1]);
            }
        }
        None
    }
}

/// Reads the credentials in front of a host, where there are any.
pub fn auth_at(input: &[u8], i: usize) -> (r: Option<(UriAuth, usize)>)
    requires
        i <= input.len(),
    ensures
        agrees(r, spec_auth(input@, i as int)),
        r.is_some() ==> i < r.unwrap().1 <= input.len(),
{
    let u = scan(input, i, Class::Alnum);
    if byte_is(input, u, COLON) {
        let p = scan(input, u + 1, Class::Alnum);
        if byte_is(input, p, AT_SIGN) {
            let auth = UriAuth {
                username: copy_range(input, i, u),
                password: Some(copy_range(input, u + 1, p)),
            };
            Some((auth, p + 1))
        } else {
            None
        }
    } else if byte_is(input, u, AT_SIGN) {
        Some((UriAuth { username: copy_range(input, i, u), password: None }, u + 1))
    } else {
        None
    }
}

/// Reads a dot and a number up to 255.
fn dot_octet_at(input: &[u8], i: usize) -> (r: Option<(u8, usize)>)
    requires
        i <= input.len(),
    ensures
        match spec_dot_octet(input@, i as int) {
            Some((v, e)) => r == Some((v as u8, e as usize)) && v <= 255 && i < e <= input.len(),
            None => r.is_none(),
        },
{
    if !byte_is(input, i, DOT) {
        return None;
    }
    match number(input, i + 1, 255) {
        Some((v, e)) => Some((v as u8, e)),
        None => None,
    }
}

/// Reads a dotted quad.
pub fn quad_at(input: &[u8], i: usize) -> (r: Option<((u8, u8, u8, u8), usize)>)
    requires
        i <= input.len(),
    ensures
        match spec_quad(input@, i as int) {
            Some((q, e)) => r == Some((q, e as usize)) && i < e <= input.len(),
            None => r.is_none(),
        },
{
    let (a, i1) = match number(input, i, 255) {
        Some((v, e)) => (v as u8, e),
        None => { return None; },
    };
    let (b, i2) = match dot_octet_at(input, i1) {
        Some(x) => x,
        None => { return None; },
    };
    let (c, i3) = match dot_octet_at(input, i2) {
        Some(x) => x,
        None => { return None; },
    };
    let (d, i4) = match dot_octet_at(input, i3) {
        Some(x) => x,
        None => { return None; },
    };
    Some(((a, b, c, d), i4))
}

/// Reads the port behind a host, where there is one.
pub fn port_at(input: &[u8], i: usize) -> (r: (Option<u16>, usize))
    requires
        i <= input.len(),
    ensures
        r.0 == spec_port(input@, i as int).0,
        r.1 == spec_port(input@, i as int).1,
        i <= r.1 <= input.len(),
{
    if !byte_is(input, i, COLON) {
        return (None, i);
    }
    match number(input, i + 1, 0xFFFF) {
        Some((v, e)) => (Some(v as u16), e),
        None => (None, i),
    }
}

/// Reads a host: the dotted quad is tried first, so that a numeric host is
/// never taken for a name.
pub fn host_at(input: &[u8], i: usize) -> (r: Option<(Domain, usize)>)
    requires
        i <= input.len(),
    ensures
        agrees(r, spec_host(input@, i as int)),
        r.is_some() ==> i < r.unwrap().1 <= input.len(),
{
    match quad_at(input, i) {
        Some((q, e)) => {
            let (port, end) = port_at(input, e);
            Some((Domain::Ipv4(q.0, q.1, q.2, q.3, port), end))
        },
        None => {
            let e = scan(input, i, Class::Label);
            if e == i {
                None
            } else {
                let (port, end) = port_at(input, e);
                Some((Domain::Domain(copy_range(input, i, e), port), end))
            }
        },
    }
}

/// Reads one `;key=value` pair.
pub fn pair_at(input: &[u8], i: usize) -> (r: Option<((Vec<u8>, Vec<u8>), usize)>)
    requires
        i <= input.len(),
    ensures
        match spec_pair(input@, i as int) {
            Some(((k, v), e)) => r.is_some() && r.unwrap().0.0@ == k && r.unwrap().0.1@ == v
                && r.unwrap().1 == e && i < e <= input.len(),
            None => r.is_none(),
        },
{
    if !byte_is(input, i, SEMICOLON) {
        return None;
    }
    let k = scan(input, i + 1, Class::Alpha);
    if !byte_is(input, k, EQUALS) {
        return None;
    }
    let v = scan(input, k + 1, Class::Alnum);
    Some(((copy_range(input, i + 1, k), copy_range(input, k + 1, v)), v))
}

/// Whether `key` is `transport`.
pub fn is_transport_key(key: &[u8]) -> (r: bool)
    ensures
        r == (key@ == transport_key()),
{
    let r = key.len() == 9 && key[0] == 0x74 && key[1] == 0x72 && key[2] == 0x61 && key[3]
        == 0x6E && key[4] == 0x73 && key[5] == 0x70 && key[6] == 0x6F && key[7] == 0x72 && key[8]
        == 0x74;
    proof {
        if r {
            assert(key@ =~= transport_key());
        }
    }
    r
}

/// A small letter as its capital.
fn to_upper(b: u8) -> (r: u8)
    ensures
        r == upper(b),
{
    if 0x61 <= b && b <= 0x7A {
        b - 0x20
    } else {
        b
    }
}

/// The transport protocol that `value` names, in any case of its letters.
pub fn transport_named(value: &[u8]) -> (r: Option<Transport>)
    ensures
        r == spec_transport(value@),
{
    let ghost u = upper_text(value@);
    if value.len() == 3 {
        let a = to_upper(value[0]);
        let b = to_upper(value[1]);
        let c = to_upper(value[2]);
        assert(u =~= seq![a, b, c]);
        proof {
            restate3(a, b, c);
        }
        if a == 0x55 && b == 0x44 && c == 0x50 {
            Some(Transport::Udp)
        } else if a == 0x54 && b == 0x43 && c == 0x50 {
            Some(Transport::Tcp)
        } else if a == 0x54 && b == 0x4C && c == 0x53 {
            Some(Transport::Tls)
        } else {
            None
        }
    } else if value.len() == 4 {
        let a = to_upper(value[0]);
        let b = to_upper(value[1]);
        let c = to_upper(value[2]);
        let d = to_upper(value[3]);
        assert(u =~= seq![a, b, c, d]);
        let r = a == 0x53 && b == 0x43 && c == 0x54 && d == 0x50;
        proof {
            let t = transport_text(Transport::Sctp);
            if r {
                assert(u =~= t);
            } else {
                assert(u[0] == a && u[1] == b && u[2] == c && u[3] == d);
                assert(t[0] == 0x53 && t[1] == 0x43 && t[2] == 0x54 && t[3] == 0x50);
            }
        }
        if r {
            Some(Transport::Sctp)
        } else {
            None
        }
    } else {
        None
    }
}

/// A text of three bytes is the name of a protocol exactly where its bytes
/// are those of the name.
proof fn restate3(a: u8, b: u8, c: u8)
    ensures
        forall|t: Transport|
            t != Transport::Sctp ==> ((seq![a, b, c] == #[trigger] transport_text(t)) <==> (a
                == transport_text(t)[0] && b == transport_text(t)[1] && c == transport_text(
                t,
            )[2])),
        seq![a, b, c] != transport_text(Transport::Sctp),
{
    let s = seq![a, b, c];
    assert(s[0] == a && s[1] == b && s[2] == c);
    assert forall|t: Transport| t != Transport::Sctp implies ((s == #[trigger] transport_text(t))
        <==> (a == transport_text(t)[0] && b == transport_text(t)[1] && c == transport_text(
        t,
    )[2])) by {
        if a == transport_text(t)[0] && b == transport_text(t)[1] && c == transport_text(t)[2] {
            assert(s =~= transport_text(t));
        }
    }
    assert(transport_text(Transport::Sctp).len() == 4);
}

/// Makes the parameter that a key and a value stand for.
pub fn classify(key: Vec<u8>, value: Vec<u8>) -> (r: Param)
    ensures
        r@ == spec_classify(key@, value@),
{
    if is_transport_key(key.as_slice()) {
        match transport_named(value.as_slice()) {
            Some(t) => Param::Transport(t),
            None => Param::Other(key, value),
        }
    } else {
        Param::Other(key, value)
    }
}

/// Whether two parameters have the same key.
pub fn same_key(p: &Param, q: &Param) -> (r: bool)
    ensures
        r == (p@.key() == q@.key()),
{
    match p {
        Param::Transport(_) => match q {
            Param::Transport(_) => true,
            Param::Other(k, _) => is_transport_key(k.as_slice()),
        },
        Param::Other(k, _) => match q {
            Param::Transport(_) => is_transport_key(k.as_slice()),
            Param::Other(l, _) => same_bytes(k.as_slice(), l.as_slice()),
        },
    }
}

/// Puts `p` into `params`: in the place of the parameter that has its key,
/// or at the end where none has.
pub fn put_param(params: &mut Vec<Param>, p: Param)
    ensures
        params_view(final(params)@) == spec_put(params_view(old(params)@), p@),
{
    let ghost ps = params_view(params@);
    let mut j: usize = 0;
    while j < params.len()
        invariant
            j <= params.len(),
            params@ == old(params)@,
            ps == params_view(params@),
            key_pos(ps, p@.key(), 0) == key_pos(ps, p@.key(), j as int),
        decreases params.len() - j,
    {
        if same_key(&params[j], &p) {
            assert(ps[j as int] == params@[j as int]@);
            params.set(j, p);
            assert(params_view(params@) =~= ps.update(j as int, p@));
            return ;
        }
        assert(ps[j as int] == params@[j as int]@);
        j += 1;
    }
    params.push(p);
    assert(params_view(params@) =~= ps.push(p@));
}

/// Reads parameters until no pair follows. A later one with the key of an
/// earlier one takes its place.
pub fn params_at(input: &[u8], i: usize) -> (r: (Vec<Param>, usize))
    requires
        i <= input.len(),
    ensures
        (params_view(r.0@), r.1 as int) == spec_params(input@, i as int, Seq::empty()),
        unique_keys(params_view(r.0@)),
        i <= r.1 <= input.len(),
{
    let mut params: Vec<Param> = Vec::new();
    let mut pos: usize = i;
    assert(params_view(params@) =~= Seq::empty());
    loop
        invariant
            i <= pos <= input.len(),
            unique_keys(params_view(params@)),
            spec_params(input@, i as int, Seq::empty()) == spec_params(
                input@,
                pos as int,
                params_view(params@),
            ),
        decreases input.len() - pos,
    {
        match pair_at(input, pos) {
            Some(((key, value), e)) => {
                let p = classify(key, value);
                proof {
                    lemma_put_unique(params_view(params@), p@);
                }
                put_param(&mut params, p);
                pos = e;
            },
            None => { return (params, pos); },
        }
    }
}

/// Reads a URI at a position of the input.
pub fn uri_at(input: &[u8], i: usize) -> (r: Option<(Uri, usize)>)
    requires
        i <= input.len(),
    ensures
        agrees(r, spec_uri(input@, i as int)),
        r.is_some() ==> i < r.unwrap().1 <= input.len() && unique_keys(r.unwrap().0@.parameters),
{
    let (scheme, i0) = match schema_at(input, i) {
        Some(x) => x,
        None => { return None; },
    };
    let (auth, i1) = match auth_at(input, i0) {
        Some((a, e)) => (Some(a), e),
        None => (None, i0),
    };
    let (host, i2) = match host_at(input, i1) {
        Some(x) => x,
        None => { return None; },
    };
    let (parameters, i3) = params_at(input, i2);
    Some((Uri { scheme, host, auth, parameters }, i3))
}

/// Parses a URI at the start of `input`, and returns it with the bytes that
/// follow it. Fails where the scheme or the host is missing.
pub fn parse_uri(input: &[u8]) -> (r: Result<(&[u8], Uri), ParseError>)
    ensures
        match spec_uri(input@, 0) {
            Some((v, e)) => r.is_ok() && r.unwrap().1@ == v && r.unwrap().0@ == input@.subrange(
                e,
                input@.len() as int,
            ) && 0 < e <= input@.len() && unique_keys(v.parameters),
            None => r == Err::<(&[u8], Uri), ParseError>(ParseError::MissingToken),
        },
{
    match uri_at(input, 0) {
        Some((uri, e)) => Ok((slice_subrange(input, e, input.len()), uri)),
        None => Err(ParseError::MissingToken),
    }
}

} // verus!
