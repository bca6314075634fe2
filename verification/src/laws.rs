//! What holds between the text of a URI and the URI that is read from it.

use crate::lexical::{
    at, decimal, lemma_decimal, lemma_run_end, lemma_run_is, run_end, spec_number, Class,
};
use crate::render::{
    render_auth, render_host, render_pair, render_params, render_port, render_quad, render_uri,
};
use crate::uri::{
    key_pos, lemma_key_pos, schema_text, spec_auth, spec_classify, spec_dot_octet, spec_host, spec_pair,
    spec_params, spec_port, spec_put, spec_quad, spec_schema, spec_transport, spec_uri,
    transport_text, unique_keys, upper_text, DomainView, ParamView, Schema, Transport,
    UriAuthView, UriView, AT_SIGN, COLON, DOT, EQUALS, SEMICOLON,
};
use crate::named::RIGHT_ANGLE;
use vstd::prelude::*;

verus! {

/// A parameter that is written as it is read: a transport, or a key of
/// letters and a value of letters and digits that do not name a transport.
pub open spec fn param_writable(p: ParamView) -> bool {
    match p {
        ParamView::Transport(_) => true,
        ParamView::Other(k, v) => Class::Alpha.all(k) && Class::Alnum.all(v) && spec_classify(k, v)
            == p,
    }
}

/// A URI whose parts are written as the grammar reads them: user name and
/// password of letters and digits; a host name that is not empty, holds
/// letters, digits, `.` and `-` only and does not begin with a dotted quad;
/// parameters as above.
pub open spec fn writable(u: UriView) -> bool {
    &&& match u.auth {
        Some(a) => Class::Alnum.all(a.username) && match a.password {
            Some(p) => Class::Alnum.all(p),
            None => true,
        },
        None => true,
    }
    &&& match u.host {
        DomainView::Domain(name, _) => name.len() > 0 && Class::Label.all(name) && spec_quad(
            name,
            0,
        ).is_none(),
        DomainView::Ipv4(_, _) => true,
    }
    &&& forall|k: int| 0 <= k < u.parameters.len() ==> param_writable(#[trigger] u.parameters[k])
}

/// The text `x` stands in `s` at position `i`.
pub open spec fn located(s: Seq<u8>, i: int, x: Seq<u8>) -> bool {
    0 <= i && i + x.len() <= s.len() && s.subrange(i, i + x.len()) == x
}

/// The text ends at `i`, or `>` stands there.
pub open spec fn ended(s: Seq<u8>, i: int) -> bool {
    i == s.len() || (0 <= i < s.len() && s[i] == RIGHT_ANGLE)
}

/// The text ends at `i`, or `>` or a semicolon stands there.
pub open spec fn closed(s: Seq<u8>, i: int) -> bool {
    ended(s, i) || (0 <= i < s.len() && s[i] == SEMICOLON)
}

/// No byte of `x` is `@`.
pub open spec fn plain(x: Seq<u8>) -> bool {
    forall|k: int| 0 <= k < x.len() ==> #[trigger] x[k] != AT_SIGN
}

/// A text that stands in `s` has its bytes there.
pub proof fn lemma_at(s: Seq<u8>, i: int, x: Seq<u8>, k: int)
    requires
        located(s, i, x),
        0 <= k < x.len(),
    ensures
        s[i + k] == x[k],
{
    assert(s.subrange(i, i + x.len())[k] == s[i + k]);
}

/// Where two texts stand joined, each of them stands.
pub proof fn lemma_split(s: Seq<u8>, i: int, x: Seq<u8>, y: Seq<u8>)
    requires
        located(s, i, x + y),
    ensures
        located(s, i, x),
        located(s, i + x.len(), y),
{
    let w = x + y;
    assert forall|k: int| 0 <= k < w.len() implies s[i + k] == #[trigger] w[k] by {
        lemma_at(s, i, w, k);
    }
    assert(s.subrange(i, i + x.len()) =~= x) by {
        assert forall|k: int| 0 <= k < x.len() implies s.subrange(i, i + x.len())[k] == x[k] by {
            assert(w[k] == x[k]);
        }
    }
    assert(s.subrange(i + x.len(), i + x.len() + y.len()) =~= y) by {
        assert forall|k: int| 0 <= k < y.len() implies s.subrange(
            i + x.len(),
            i + x.len() + y.len(),
        )[k] == y[k] by {
            assert(w[x.len() + k] == y[k]);
        }
    }
}

/// A text of one class, followed by the end or by a byte outside the
/// class, is the run that starts where it stands.
pub proof fn lemma_run_over(s: Seq<u8>, i: int, x: Seq<u8>, c: Class)
    requires
        located(s, i, x),
        c.all(x),
        i + x.len() == s.len() || !c.has(s[i + x.len()]),
    ensures
        run_end(s, i, c) == i + x.len(),
{
    assert forall|k: int| i <= k < i + x.len() implies c.has(#[trigger] s[k]) by {
        lemma_at(s, i, x, k - i);
        assert(c.has(x[k - i]));
    }
    lemma_run_is(s, i, i + x.len(), c);
}

proof fn lemma_number_over(s: Seq<u8>, i: int, n: nat, limit: nat)
    requires
        located(s, i, decimal(n)),
        n <= limit,
        i + decimal(n).len() == s.len() || !Class::Digit.has(s[i + decimal(n).len()]),
    ensures
        spec_number(s, i, limit) == Some((n, i + decimal(n).len())),
{
    lemma_decimal(n);
    lemma_run_over(s, i, decimal(n), Class::Digit);
}

proof fn lemma_dot_octet_over(s: Seq<u8>, i: int, n: u8)
    requires
        located(s, i, seq![DOT] + decimal(n as nat)),
        i + 1 + decimal(n as nat).len() == s.len() || !Class::Digit.has(
            s[i + 1 + decimal(n as nat).len()],
        ),
    ensures
        spec_dot_octet(s, i) == Some((n as nat, i + 1 + decimal(n as nat).len())),
{
    lemma_split(s, i, seq![DOT], decimal(n as nat));
    lemma_at(s, i, seq![DOT], 0);
    lemma_number_over(s, i + 1, n as nat, 255);
}

proof fn lemma_quad_over(s: Seq<u8>, i: int, q: (u8, u8, u8, u8))
    requires
        located(s, i, render_quad(q)),
        i + render_quad(q).len() == s.len() || !Class::Digit.has(s[i + render_quad(q).len()]),
    ensures
        spec_quad(s, i) == Some((q, i + render_quad(q).len())),
{
    let dot = seq![DOT];
    let d0 = decimal(q.0 as nat);
    let d1 = decimal(q.1 as nat);
    let d2 = decimal(q.2 as nat);
    let d3 = decimal(q.3 as nat);
    let x1 = d0 + dot + d1 + dot + d2 + dot;
    let x2 = d0 + dot + d1 + dot + d2;
    let x3 = d0 + dot + d1 + dot;
    let x4 = d0 + dot + d1;
    let x5 = d0 + dot;
    lemma_split(s, i, x1, d3);
    lemma_split(s, i, x2, dot);
    lemma_split(s, i, x3, d2);
    lemma_split(s, i, x4, dot);
    lemma_split(s, i, x5, d1);
    lemma_split(s, i, d0, dot);
    let p1 = i + d0.len();
    let p2 = p1 + 1 + d1.len();
    let p3 = p2 + 1 + d2.len();
    lemma_at(s, p1, dot, 0);
    lemma_at(s, p2, dot, 0);
    lemma_at(s, p3, dot, 0);
    lemma_number_over(s, i, q.0 as nat, 255);
    assert(located(s, p1, dot + d1)) by {
        assert(s.subrange(p1, p1 + 1 + d1.len()) =~= s.subrange(p1, p1 + 1) + s.subrange(
            p1 + 1,
            p1 + 1 + d1.len(),
        ));
    }
    lemma_dot_octet_over(s, p1, q.1);
    assert(located(s, p2, dot + d2)) by {
        assert(s.subrange(p2, p2 + 1 + d2.len()) =~= s.subrange(p2, p2 + 1) + s.subrange(
            p2 + 1,
            p2 + 1 + d2.len(),
        ));
    }
    lemma_dot_octet_over(s, p2, q.2);
    assert(located(s, p3, dot + d3)) by {
        assert(s.subrange(p3, p3 + 1 + d3.len()) =~= s.subrange(p3, p3 + 1) + s.subrange(
            p3 + 1,
            p3 + 1 + d3.len(),
        ));
    }
    lemma_dot_octet_over(s, p3, q.3);
}

proof fn lemma_port_over(s: Seq<u8>, i: int, port: Option<u16>)
    requires
        located(s, i, render_port(port)),
        closed(s, i + render_port(port).len()),
    ensures
        spec_port(s, i) == (port, i + render_port(port).len()),
{
    match port {
        Some(p) => {
            lemma_split(s, i, seq![COLON], decimal(p as nat));
            lemma_at(s, i, seq![COLON], 0);
            lemma_number_over(s, i + 1, p as nat, 0xFFFF);
        },
        None => {},
    }
}

/// Inside a text that stands in `s` and is followed by a byte outside the
/// class, a run ends where it ends in the text alone.
proof fn lemma_run_shift(s: Seq<u8>, i: int, x: Seq<u8>, j: int, c: Class)
    requires
        located(s, i, x),
        0 <= j <= x.len(),
        i + x.len() == s.len() || !c.has(s[i + x.len()]),
    ensures
        run_end(s, i + j, c) == i + run_end(x, j, c),
    decreases x.len() - j,
{
    if j < x.len() {
        lemma_at(s, i, x, j);
        if c.has(x[j]) {
            lemma_run_shift(s, i, x, j + 1, c);
        }
    }
}

/// What is read at `i + j` of `s` when `r` is read at `j` of the text that
/// stands at `i`.
pub open spec fn shifted<T>(r: Option<(T, int)>, i: int) -> Option<(T, int)> {
    match r {
        Some((v, e)) => Some((v, i + e)),
        None => None,
    }
}

proof fn lemma_number_shift(s: Seq<u8>, i: int, x: Seq<u8>, j: int, limit: nat)
    requires
        located(s, i, x),
        0 <= j <= x.len(),
        i + x.len() == s.len() || !Class::Digit.has(s[i + x.len()]),
    ensures
        spec_number(s, i + j, limit) == shifted(spec_number(x, j, limit), i),
        spec_number(x, j, limit).is_some() ==> j < spec_number(x, j, limit).unwrap().1 <= x.len(),
{
    lemma_run_shift(s, i, x, j, Class::Digit);
    lemma_run_end(x, j, Class::Digit);
    let e = run_end(x, j, Class::Digit);
    assert(s.subrange(i + j, i + e) =~= x.subrange(j, e)) by {
        assert forall|k: int| 0 <= k < e - j implies s.subrange(i + j, i + e)[k] == x.subrange(
            j,
            e,
        )[k] by {
            lemma_at(s, i, x, j + k);
        }
    }
}

proof fn lemma_dot_octet_shift(s: Seq<u8>, i: int, x: Seq<u8>, j: int)
    requires
        located(s, i, x),
        0 <= j <= x.len(),
        i + x.len() == s.len() || (!Class::Digit.has(s[i + x.len()]) && s[i + x.len()] != DOT),
    ensures
        spec_dot_octet(s, i + j) == shifted(spec_dot_octet(x, j), i),
        spec_dot_octet(x, j).is_some() ==> j < spec_dot_octet(x, j).unwrap().1 <= x.len(),
{
    if j < x.len() {
        lemma_at(s, i, x, j);
        lemma_number_shift(s, i, x, j + 1, 255);
    }
}

/// A text that stands in `s`, followed by neither a digit nor a dot, begins
/// with a dotted quad in `s` exactly where it does alone.
proof fn lemma_quad_shift(s: Seq<u8>, i: int, x: Seq<u8>)
    requires
        located(s, i, x),
        i + x.len() == s.len() || (!Class::Digit.has(s[i + x.len()]) && s[i + x.len()] != DOT),
    ensures
        spec_quad(s, i) == shifted(spec_quad(x, 0), i),
{
    lemma_number_shift(s, i, x, 0, 255);
    match spec_number(x, 0, 255) {
        None => {},
        Some((a, j1)) => {
            lemma_dot_octet_shift(s, i, x, j1);
            match spec_dot_octet(x, j1) {
                None => {},
                Some((b, j2)) => {
                    lemma_dot_octet_shift(s, i, x, j2);
                    match spec_dot_octet(x, j2) {
                        None => {},
                        Some((c, j3)) => {
                            lemma_dot_octet_shift(s, i, x, j3);
                        },
                    }
                },
            }
        },
    }
}

proof fn lemma_host_over(s: Seq<u8>, i: int, h: DomainView)
    requires
        located(s, i, render_host(h)),
        closed(s, i + render_host(h).len()),
        match h {
            DomainView::Domain(name, _) => name.len() > 0 && Class::Label.all(name) && spec_quad(
                name,
                0,
            ).is_none(),
            DomainView::Ipv4(_, _) => true,
        },
    ensures
        spec_host(s, i) == Some((h, i + render_host(h).len())),
{
    match h {
        DomainView::Domain(name, port) => {
            lemma_split(s, i, name, render_port(port));
            let e = i + name.len();
            lemma_port_over(s, e, port);
            if port.is_some() {
                lemma_split(s, e, seq![COLON], decimal(port.unwrap() as nat));
                lemma_at(s, e, seq![COLON], 0);
            }
            lemma_quad_shift(s, i, name);
            lemma_run_over(s, i, name, Class::Label);
        },
        DomainView::Ipv4(q, port) => {
            lemma_split(s, i, render_quad(q), render_port(port));
            let e = i + render_quad(q).len();
            lemma_port_over(s, e, port);
            if port.is_some() {
                lemma_split(s, e, seq![COLON], decimal(port.unwrap() as nat));
                lemma_at(s, e, seq![COLON], 0);
            }
            lemma_quad_over(s, i, q);
        },
    }
}

/// A key of letters and a value of letters and digits, written as a pair
/// and closed, are read as that pair.
pub proof fn lemma_pair_over(s: Seq<u8>, i: int, k: Seq<u8>, v: Seq<u8>)
    requires
        located(s, i, render_pair(k, v)),
        Class::Alpha.all(k),
        Class::Alnum.all(v),
        closed(s, i + render_pair(k, v).len()),
    ensures
        spec_pair(s, i) == Some(((k, v), i + render_pair(k, v).len())),
{
    let semi = seq![SEMICOLON];
    let eq = seq![EQUALS];
    lemma_split(s, i, semi + k + eq, v);
    lemma_split(s, i, semi + k, eq);
    lemma_split(s, i, semi, k);
    lemma_at(s, i, semi, 0);
    lemma_at(s, i + 1 + k.len(), eq, 0);
    lemma_run_over(s, i + 1, k, Class::Alpha);
    lemma_run_over(s, i + 2 + k.len(), v, Class::Alnum);
}

/// The key and the value under which a writable parameter is written stand
/// for that parameter.
proof fn lemma_classify(p: ParamView)
    requires
        param_writable(p),
    ensures
        spec_classify(p.key(), p.value()) == p,
        Class::Alpha.all(p.key()),
        Class::Alnum.all(p.value()),
{
    match p {
        ParamView::Transport(t) => {
            let text = transport_text(t);
            assert(upper_text(text) =~= text);
            assert(transport_text(Transport::Udp)[0] == 0x55);
            assert(transport_text(Transport::Tcp)[1] == 0x43);
            assert(transport_text(Transport::Tcp)[0] == 0x54);
            assert(transport_text(Transport::Udp)[1] == 0x44);
            assert(transport_text(Transport::Tls)[1] == 0x4C);
            assert(transport_text(Transport::Sctp).len() == 4);
            assert(transport_text(Transport::Tls).len() == 3);
            assert(spec_transport(text) == Some(t));
        },
        ParamView::Other(_, _) => {},
    }
}

/// The text of the first `k` parameters stands where the text of all of
/// them stands, and behind it the text of the next one, if there is one.
proof fn lemma_params_prefix(s: Seq<u8>, i: int, ps: Seq<ParamView>, k: int)
    requires
        located(s, i, render_params(ps)),
        0 <= k <= ps.len(),
    ensures
        located(s, i, render_params(ps.take(k))),
        k < ps.len() ==> located(
            s,
            i + render_params(ps.take(k)).len(),
            render_pair(ps[k].key(), ps[k].value()),
        ) && render_params(ps.take(k + 1)).len() == render_params(ps.take(k)).len()
            + render_pair(ps[k].key(), ps[k].value()).len(),
        k == ps.len() ==> render_params(ps.take(k)) == render_params(ps),
    decreases ps.len() - k,
{
    if k < ps.len() {
        lemma_params_prefix(s, i, ps, k + 1);
        let next = ps.take(k + 1);
        assert(next.drop_last() =~= ps.take(k));
        assert(next.last() == ps[k]);
        lemma_split(s, i, render_params(ps.take(k)), render_pair(ps[k].key(), ps[k].value()));
    } else {
        assert(ps.take(k) =~= ps);
    }
}

/// Behind each parameter of a text of parameters that is closed stands
/// the end, `>` or a semicolon.
proof fn lemma_params_closed(s: Seq<u8>, i: int, ps: Seq<ParamView>, k: int)
    requires
        located(s, i, render_params(ps)),
        ended(s, i + render_params(ps).len()),
        0 <= k <= ps.len(),
    ensures
        closed(s, i + render_params(ps.take(k)).len()),
{
    lemma_params_prefix(s, i, ps, k);
    if k < ps.len() {
        lemma_at(
            s,
            i + render_params(ps.take(k)).len(),
            render_pair(ps[k].key(), ps[k].value()),
            0,
        );
    }
}

/// A parameter whose key no parameter of the list has is put at its end.
proof fn lemma_put_new(ps: Seq<ParamView>, k: int)
    requires
        unique_keys(ps),
        0 <= k < ps.len(),
    ensures
        spec_put(ps.take(k), ps[k]) == ps.take(k + 1),
{
    let head = ps.take(k);
    lemma_key_pos(head, ps[k].key(), 0);
    let j = key_pos(head, ps[k].key(), 0);
    if j < head.len() {
        assert(head[j] == ps[j]);
        assert(ps[j].key() == ps[k].key());
    }
    assert(head.push(ps[k]) =~= ps.take(k + 1));
}

/// Behind the text of the first `k` parameters, with those at hand, the
/// rest of them are read up to the end of their text.
proof fn lemma_params_from(s: Seq<u8>, i: int, ps: Seq<ParamView>, k: int)
    requires
        located(s, i, render_params(ps)),
        ended(s, i + render_params(ps).len()),
        unique_keys(ps),
        forall|j: int| 0 <= j < ps.len() ==> param_writable(#[trigger] ps[j]),
        0 <= k <= ps.len(),
    ensures
        spec_params(s, i + render_params(ps.take(k)).len(), ps.take(k)) == (
            ps,
            i + render_params(ps).len(),
        ),
    decreases ps.len() - k,
{
    let pos = i + render_params(ps.take(k)).len();
    lemma_params_prefix(s, i, ps, k);
    if k < ps.len() {
        let p = ps[k];
        lemma_classify(p);
        lemma_params_prefix(s, i, ps, k + 1);
        lemma_params_closed(s, i, ps, k + 1);
        lemma_pair_over(s, pos, p.key(), p.value());
        lemma_put_new(ps, k);
        lemma_params_from(s, i, ps, k + 1);
    } else {
        assert(ps.take(k) =~= ps);
        assert(spec_pair(s, pos).is_none());
    }
}

proof fn lemma_params_over(s: Seq<u8>, i: int, ps: Seq<ParamView>)
    requires
        located(s, i, render_params(ps)),
        ended(s, i + render_params(ps).len()),
        unique_keys(ps),
        forall|k: int| 0 <= k < ps.len() ==> param_writable(#[trigger] ps[k]),
    ensures
        spec_params(s, i, Seq::empty()) == (ps, i + render_params(ps).len()),
        closed(s, i),
{
    assert(ps.take(0) =~= Seq::<ParamView>::empty());
    lemma_params_from(s, i, ps, 0);
    lemma_params_closed(s, i, ps, 0);
}

proof fn lemma_auth_over(s: Seq<u8>, i: int, a: UriAuthView)
    requires
        located(s, i, render_auth(Some(a))),
        Class::Alnum.all(a.username),
        a.password.is_some() ==> Class::Alnum.all(a.password.unwrap()),
    ensures
        spec_auth(s, i) == Some((a, i + render_auth(Some(a)).len())),
{
    let at_sign = seq![AT_SIGN];
    match a.password {
        Some(p) => {
            let colon = seq![COLON];
            assert(render_auth(Some(a)) =~= a.username + colon + p + at_sign);
            lemma_split(s, i, a.username + colon + p, at_sign);
            lemma_split(s, i, a.username + colon, p);
            lemma_split(s, i, a.username, colon);
            let u = i + a.username.len();
            lemma_at(s, u, colon, 0);
            lemma_at(s, u + 1 + p.len(), at_sign, 0);
            lemma_run_over(s, i, a.username, Class::Alnum);
            lemma_run_over(s, u + 1, p, Class::Alnum);
        },
        None => {
            assert(render_auth(Some(a)) =~= a.username + at_sign);
            lemma_split(s, i, a.username, at_sign);
            lemma_at(s, i + a.username.len(), at_sign, 0);
            lemma_run_over(s, i, a.username, Class::Alnum);
        },
    }
}

/// A run does not pass a byte outside its class.
proof fn lemma_run_stops(s: Seq<u8>, i: int, e: int, c: Class)
    requires
        0 <= i <= e <= s.len(),
        e == s.len() || !c.has(s[e]),
    ensures
        i <= run_end(s, i, c) <= e,
    decreases e - i,
{
    if i < e && c.has(s[i]) {
        lemma_run_stops(s, i + 1, e, c);
    }
}

/// Where no `@` stands from `i` up to a place at which the text ends or
/// `>` stands, there are no credentials at `i`.
proof fn lemma_no_auth(s: Seq<u8>, i: int, e: int)
    requires
        0 <= i <= e,
        ended(s, e),
        forall|k: int| i <= k < e ==> #[trigger] s[k] != AT_SIGN,
    ensures
        spec_auth(s, i).is_none(),
{
    lemma_run_stops(s, i, e, Class::Alnum);
    let u = run_end(s, i, Class::Alnum);
    if u < e {
        lemma_run_stops(s, u + 1, e, Class::Alnum);
    }
}

proof fn lemma_decimal_plain(n: nat)
    ensures
        plain(decimal(n)),
{
    lemma_decimal(n);
    assert forall|k: int| 0 <= k < decimal(n).len() implies #[trigger] decimal(n)[k]
        != AT_SIGN by {
        assert(Class::Digit.has(decimal(n)[k]));
    }
}

proof fn lemma_host_plain(h: DomainView)
    requires
        match h {
            DomainView::Domain(name, _) => Class::Label.all(name),
            DomainView::Ipv4(_, _) => true,
        },
    ensures
        plain(render_host(h)),
{
    match h {
        DomainView::Domain(name, port) => {
            assert forall|k: int| 0 <= k < name.len() implies #[trigger] name[k] != AT_SIGN by {
                assert(Class::Label.has(name[k]));
            }
            if port.is_some() {
                lemma_decimal_plain(port.unwrap() as nat);
            }
        },
        DomainView::Ipv4(q, port) => {
            lemma_decimal_plain(q.0 as nat);
            lemma_decimal_plain(q.1 as nat);
            lemma_decimal_plain(q.2 as nat);
            lemma_decimal_plain(q.3 as nat);
            if port.is_some() {
                lemma_decimal_plain(port.unwrap() as nat);
            }
        },
    }
}

proof fn lemma_params_plain(ps: Seq<ParamView>)
    requires
        forall|k: int| 0 <= k < ps.len() ==> param_writable(#[trigger] ps[k]),
    ensures
        plain(render_params(ps)),
    decreases ps.len(),
{
    if ps.len() > 0 {
        let p = ps.last();
        let head = ps.drop_last();
        assert forall|k: int| 0 <= k < head.len() implies param_writable(#[trigger] head[k]) by {
            assert(head[k] == ps[k]);
        }
        lemma_params_plain(head);
        lemma_classify(p);
        assert forall|k: int| 0 <= k < p.key().len() implies #[trigger] p.key()[k] != AT_SIGN by {
            assert(Class::Alpha.has(p.key()[k]));
        }
        assert forall|k: int| 0 <= k < p.value().len() implies #[trigger] p.value()[k]
            != AT_SIGN by {
            assert(Class::Alnum.has(p.value()[k]));
        }
    }
}

/// Where the parts of the text of a URI stand in a text that holds it.
pub proof fn lemma_layout(s: Seq<u8>, i: int, u: UriView)
    requires
        located(s, i, render_uri(u)),
    ensures
        located(s, i, schema_text(u.scheme)),
        located(s, i + schema_text(u.scheme).len(), seq![COLON]),
        located(s, i + schema_text(u.scheme).len() + 1, render_auth(u.auth)),
        located(
            s,
            i + schema_text(u.scheme).len() + 1 + render_auth(u.auth).len(),
            render_host(u.host),
        ),
        located(
            s,
            i + schema_text(u.scheme).len() + 1 + render_auth(u.auth).len() + render_host(
                u.host,
            ).len(),
            render_params(u.parameters),
        ),
        render_uri(u).len() == schema_text(u.scheme).len() + 1 + render_auth(u.auth).len()
            + render_host(u.host).len() + render_params(u.parameters).len(),
{
    let st = schema_text(u.scheme);
    let colon = seq![COLON];
    let a = render_auth(u.auth);
    let h = render_host(u.host);
    let ps = render_params(u.parameters);
    lemma_split(s, i, st + colon + a + h, ps);
    lemma_split(s, i, st + colon + a, h);
    lemma_split(s, i, st + colon, a);
    lemma_split(s, i, st, colon);
}

proof fn lemma_schema_over(s: Seq<u8>, i: int, scheme: Schema)
    requires
        located(s, i, schema_text(scheme)),
        located(s, i + schema_text(scheme).len(), seq![COLON]),
    ensures
        spec_schema(s, i) == Some((scheme, i + schema_text(scheme).len() + 1)),
{
    let st = schema_text(scheme);
    lemma_at(s, i + st.len(), seq![COLON], 0);
    assert(Class::Alpha.all(st));
    lemma_run_over(s, i, st, Class::Alpha);
    assert(schema_text(Schema::Sip).len() == 3 && schema_text(Schema::Sips).len() == 4);
}

/// Where two texts without `@` stand one behind the other from `i` on, and
/// the text ends or `>` stands behind them, no credentials are read at `i`.
proof fn lemma_no_auth_over(s: Seq<u8>, i: int, x: Seq<u8>, y: Seq<u8>)
    requires
        located(s, i, x),
        located(s, i + x.len(), y),
        ended(s, i + x.len() + y.len()),
        plain(x),
        plain(y),
    ensures
        spec_auth(s, i).is_none(),
{
    let e = i + x.len() + y.len();
    assert forall|k: int| i <= k < e implies #[trigger] s[k] != AT_SIGN by {
        if k < i + x.len() {
            lemma_at(s, i, x, k - i);
        } else {
            lemma_at(s, i + x.len(), y, k - i - x.len());
        }
    }
    lemma_no_auth(s, i, e);
}

/// What is read from a text in which a scheme, credentials or none, a host
/// and parameters are read one behind the other.
proof fn lemma_uri_of_parts(
    s: Seq<u8>,
    i: int,
    u: UriView,
    i0: int,
    i1: int,
    i2: int,
    i3: int,
)
    requires
        spec_schema(s, i) == Some((u.scheme, i0)),
        match u.auth {
            Some(a) => spec_auth(s, i0) == Some((a, i1)),
            None => spec_auth(s, i0).is_none() && i1 == i0,
        },
        spec_host(s, i1) == Some((u.host, i2)),
        spec_params(s, i2, Seq::empty()) == (u.parameters, i3),
    ensures
        spec_uri(s, i) == Some((u, i3)),
{
}

/// The text of a writable URI in which no two parameters have the same
/// key, standing at `i` in a text that ends behind it or goes on with `>`,
/// is read at `i` as that URI, up to its end.
pub proof fn lemma_uri_over(s: Seq<u8>, i: int, u: UriView)
    requires
        located(s, i, render_uri(u)),
        ended(s, i + render_uri(u).len()),
        writable(u),
        unique_keys(u.parameters),
    ensures
        spec_uri(s, i) == Some((u, i + render_uri(u).len())),
{
    let a = render_auth(u.auth);
    let h = render_host(u.host);
    let ps = render_params(u.parameters);
    let i0: int = i + schema_text(u.scheme).len() + 1;
    let i1: int = i0 + a.len();
    let i2: int = i1 + h.len();
    lemma_layout(s, i, u);
    lemma_schema_over(s, i, u.scheme);
    lemma_params_over(s, i2, u.parameters);
    lemma_host_over(s, i1, u.host);
    match u.auth {
        Some(auth) => {
            lemma_auth_over(s, i0, auth);
        },
        None => {
            lemma_host_plain(u.host);
            lemma_params_plain(u.parameters);
            lemma_no_auth_over(s, i0, h, ps);
        },
    }
    lemma_uri_of_parts(s, i, u, i0, i1, i2, i + render_uri(u).len());
}

/// The text of a writable URI in which no two parameters have the same
/// key reads back as the same URI, parameters in their order, and nothing
/// of the text is left.
pub proof fn law_round_trip(u: UriView)
    requires
        writable(u),
        unique_keys(u.parameters),
    ensures
        spec_uri(render_uri(u), 0) == Some((u, render_uri(u).len() as int)),
{
    let s = render_uri(u);
    assert(s.subrange(0, s.len() as int) =~= s);
    lemma_uri_over(s, 0, u);
}

/// The text of a writable URI with at most one parameter reads back as the
/// same URI, and nothing of the text is left.
pub proof fn law_round_trip_single(u: UriView)
    requires
        writable(u),
        u.parameters.len() <= 1,
    ensures
        spec_uri(render_uri(u), 0) == Some((u, render_uri(u).len() as int)),
{
    law_round_trip(u);
}

/// Reading the text of a writable URI in which no two parameters have the
/// same key, and writing what was read, gives the same text again.
pub proof fn law_render_stable(u: UriView)
    requires
        writable(u),
        unique_keys(u.parameters),
    ensures
        spec_uri(render_uri(u), 0).is_some(),
        render_uri(spec_uri(render_uri(u), 0).unwrap().0) == render_uri(u),
{
    law_round_trip(u);
}

/// Reading the text of a writable URI with at most one parameter, and
/// writing what was read, gives the same text again.
pub proof fn law_render_stable_single(u: UriView)
    requires
        writable(u),
        u.parameters.len() <= 1,
    ensures
        spec_uri(render_uri(u), 0).is_some(),
        render_uri(spec_uri(render_uri(u), 0).unwrap().0) == render_uri(u),
{
    law_round_trip(u);
}

} // verus!
