//! The URI: `scheme ":" [ user [ ":" password ] "@" ] host [ ":" port ]
//! *( ";" key "=" value )`.

use crate::lexical::at;
use crate::lexical::run_end;
use crate::lexical::spec_number;
use crate::lexical::Class;
use vstd::prelude::*;

verus! {

pub const COLON: u8 = 0x3A;

pub const SEMICOLON: u8 = 0x3B;

pub const EQUALS: u8 = 0x3D;

pub const AT_SIGN: u8 = 0x40;

pub const DOT: u8 = 0x2E;

/// Why a parser found nothing.
#[derive(Clone, Copy, Debug, PartialEq, Eq, Structural)]
pub enum ParseError {
    /// A token that the grammar requires at this place is not there.
    MissingToken,
    /// None of the forms that the grammar allows at this place matches.
    NoAlternative,
}

/// The scheme of a URI.
#[derive(Clone, Copy, Debug, PartialEq, Eq, Structural)]
pub enum Schema {
    Sip,
    Sips,
}

/// The transport protocol that a `transport` parameter names.
#[derive(Clone, Copy, Debug, PartialEq, Eq, Structural)]
pub enum Transport {
    Udp,
    Tcp,
    Tls,
    Sctp,
}

/// The host of a URI: a name or a dotted quad, each with an optional port.
#[derive(Clone, Debug, PartialEq, Eq)]
pub enum Domain {
    Domain(Vec<u8>, Option<u16>),
    Ipv4(u8, u8, u8, u8, Option<u16>),
}

/// The credentials in front of the host.
#[derive(Clone, Debug, PartialEq, Eq)]
pub struct UriAuth {
    pub username: Vec<u8>,
    pub password: Option<Vec<u8>>,
}

/// A parameter: one that the library knows, or a key and a value kept as
/// they were read.
#[derive(Clone, Debug, PartialEq, Eq)]
pub enum Param {
    Transport(Transport),
    Other(Vec<u8>, Vec<u8>),
}

/// A URI. No two of its parameters have the same key.
#[derive(Clone, Debug, PartialEq, Eq)]
pub struct Uri {
    pub scheme: Schema,
    pub host: Domain,
    pub auth: Option<UriAuth>,
    pub parameters: Vec<Param>,
}

/// A host, its name as a sequence of bytes.
pub enum DomainView {
    Domain(Seq<u8>, Option<u16>),
    Ipv4((u8, u8, u8, u8), Option<u16>),
}

/// Credentials, their texts as sequences of bytes.
pub struct UriAuthView {
    pub username: Seq<u8>,
    pub password: Option<Seq<u8>>,
}

/// A parameter, its texts as sequences of bytes.
pub enum ParamView {
    Transport(Transport),
    Other(Seq<u8>, Seq<u8>),
}

/// A URI as the contracts speak of it: texts as sequences of bytes, the
/// parameters as a sequence in the order in which they are held.
pub struct UriView {
    pub scheme: Schema,
    pub host: DomainView,
    pub auth: Option<UriAuthView>,
    pub parameters: Seq<ParamView>,
}

impl View for Domain {
    type V = DomainView;

    open spec fn view(&self) -> DomainView {
        match *self {
            Domain::Domain(name, port) => DomainView::Domain(name@, port),
            Domain::Ipv4(a, b, c, d, port) => DomainView::Ipv4((a, b, c, d), port),
        }
    }
}

impl View for UriAuth {
    type V = UriAuthView;

    open spec fn view(&self) -> UriAuthView {
        UriAuthView {
            username: self.username@,
            password: match self.password {
                Some(p) => Some(p@),
                None => None,
            },
        }
    }
}

impl View for Param {
    type V = ParamView;

    open spec fn view(&self) -> ParamView {
        match *self {
            Param::Transport(t) => ParamView::Transport(t),
            Param::Other(key, value) => ParamView::Other(key@, value@),
        }
    }
}

impl View for Uri {
    type V = UriView;

    open spec fn view(&self) -> UriView {
        UriView {
            scheme: self.scheme,
            host: self.host@,
            auth: match self.auth {
                Some(a) => Some(a@),
                None => None,
            },
            parameters: params_view(self.parameters@),
        }
    }
}

/// The parameters of a list, each by its view.
pub open spec fn params_view(v: Seq<Param>) -> Seq<ParamView> {
    v.map_values(|p: Param| p@)
}

/// What a position-based parser owes: the value and the end that the grammar
/// gives, or nothing where the grammar gives nothing.
pub open spec fn agrees<T: View>(r: Option<(T, usize)>, m: Option<(T::V, int)>) -> bool {
    match m {
        Some((v, e)) => r.is_some() && r.unwrap().0@ == v && r.unwrap().1 as int == e,
        None => r.is_none(),
    }
}

/// The key `transport`.
pub open spec fn transport_key() -> Seq<u8> {
    seq![0x74u8, 0x72u8, 0x61u8, 0x6Eu8, 0x73u8, 0x70u8, 0x6Fu8, 0x72u8, 0x74u8]
}

/// The name of a scheme.
pub open spec fn schema_text(s: Schema) -> Seq<u8> {
    match s {
        Schema::Sip => seq![0x73u8, 0x69u8, 0x70u8],
        Schema::Sips => seq![0x73u8, 0x69u8, 0x70u8, 0x73u8],
    }
}

/// The name of a transport protocol, in capitals.
pub open spec fn transport_text(t: Transport) -> Seq<u8> {
    match t {
        Transport::Udp => seq![0x55u8, 0x44u8, 0x50u8],
        Transport::Tcp => seq![0x54u8, 0x43u8, 0x50u8],
        Transport::Tls => seq![0x54u8, 0x4Cu8, 0x53u8],
        Transport::Sctp => seq![0x53u8, 0x43u8, 0x54u8, 0x50u8],
    }
}

/// A small letter as its capital, any other byte as it is.
pub open spec fn upper(b: u8) -> u8 {
    if 0x61 <= b <= 0x7A {
        (b - 0x20) as u8
    } else {
        b
    }
}

/// A text with its small letters as capitals.
pub open spec fn upper_text(v: Seq<u8>) -> Seq<u8> {
    Seq::new(v.len(), |k: int| upper(v[k]))
}

/// The transport protocol that a parameter value names, whatever the case of
/// its letters.
pub open spec fn spec_transport(v: Seq<u8>) -> Option<Transport> {
    let u = upper_text(v);
    if u == transport_text(Transport::Udp) {
        Some(Transport::Udp)
    } else if u == transport_text(Transport::Tcp) {
        Some(Transport::Tcp)
    } else if u == transport_text(Transport::Tls) {
        Some(Transport::Tls)
    } else if u == transport_text(Transport::Sctp) {
        Some(Transport::Sctp)
    } else {
        None
    }
}

impl ParamView {
    /// The key under which the parameter is held and written.
    pub open spec fn key(self) -> Seq<u8> {
        match self {
            ParamView::Transport(_) => transport_key(),
            ParamView::Other(k, _) => k,
        }
    }

    /// The value that is written behind the key.
    pub open spec fn value(self) -> Seq<u8> {
        match self {
            ParamView::Transport(t) => transport_text(t),
            ParamView::Other(_, v) => v,
        }
    }
}

/// The parameter that a key and a value stand for: a transport where the key
/// is `transport` and the value names one, else the pair itself.
pub open spec fn spec_classify(key: Seq<u8>, value: Seq<u8>) -> ParamView {
    if key == transport_key() && spec_transport(value).is_some() {
        ParamView::Transport(spec_transport(value).unwrap())
    } else {
        ParamView::Other(key, value)
    }
}

/// The first position from `j` on at which `ps` holds the key `k`, or the
/// length of `ps`.
pub open spec fn key_pos(ps: Seq<ParamView>, k: Seq<u8>, j: int) -> int
    decreases ps.len() - j,
{
    if j < 0 || j >= ps.len() {
        ps.len() as int
    } else if ps[j].key() == k {
        j
    } else {
        key_pos(ps, k, j + 1)
    }
}

/// `ps` with `p` in it: in the place of the parameter that has its key, or
/// at the end where none has.
pub open spec fn spec_put(ps: Seq<ParamView>, p: ParamView) -> Seq<ParamView> {
    let j = key_pos(ps, p.key(), 0);
    if j < ps.len() {
        ps.update(j, p)
    } else {
        ps.push(p)
    }
}

/// No two parameters have the same key.
pub open spec fn unique_keys(ps: Seq<ParamView>) -> bool {
    forall|a: int, b: int|
        0 <= a < ps.len() && 0 <= b < ps.len() && a != b ==> (#[trigger] ps[a]).key() != (
        #[trigger] ps[b]).key()
}

/// Where `key_pos` stops, the key is; before that it is not.
pub proof fn lemma_key_pos(ps: Seq<ParamView>, k: Seq<u8>, j: int)
    requires
        0 <= j <= ps.len(),
    ensures
        j <= key_pos(ps, k, j) <= ps.len(),
        key_pos(ps, k, j) < ps.len() ==> ps[key_pos(ps, k, j)].key() == k,
        forall|i: int| j <= i < key_pos(ps, k, j) ==> (#[trigger] ps[i]).key() != k,
    decreases ps.len() - j,
{
    if j < ps.len() && ps[j].key() != k {
        lemma_key_pos(ps, k, j + 1);
    }
}

/// Putting a parameter into a list without a repeated key leaves it so.
pub proof fn lemma_put_unique(ps: Seq<ParamView>, p: ParamView)
    requires
        unique_keys(ps),
    ensures
        unique_keys(spec_put(ps, p)),
{
    lemma_key_pos(ps, p.key(), 0);
    let j = key_pos(ps, p.key(), 0);
    let r = spec_put(ps, p);
    assert forall|a: int, b: int| 0 <= a < r.len() && 0 <= b < r.len() && a != b implies (
    #[trigger] r[a]).key() != (#[trigger] r[b]).key() by {
        if j < ps.len() {
            assert(r[a].key() == ps[a].key());
            assert(r[b].key() == ps[b].key());
        } else {
            if a < ps.len() {
                assert(r[a] == ps[a]);
            }
            if b < ps.len() {
                assert(r[b] == ps[b]);
            }
        }
    }
}

/// The scheme at `i`: the word `sip` or `sips`, then a colon.
pub open spec fn spec_schema(s: Seq<u8>, i: int) -> Option<(Schema, int)> {
    let e = run_end(s, i, Class::Alpha);
    let word = s.subrange(i, e);
    if at(s, e) != COLON {
        None
    } else if word == schema_text(Schema::Sip) {
        Some((Schema::Sip, e + 1))
    } else if word == schema_text(Schema::Sips) {
        Some((Schema::Sips, e + 1))
    } else {
        None
    }
}

/// The credentials at `i`: a user name, then perhaps a colon and a password,
/// then `@`. Without the `@` there are none.
pub open spec fn spec_auth(s: Seq<u8>, i: int) -> Option<(UriAuthView, int)> {
    let u = run_end(s, i, Class::Alnum);
    if at(s, u) == COLON {
        let p = run_end(s, u + 1, Class::Alnum);
        if at(s, p) == AT_SIGN {
            Some(
                (
                    UriAuthView {
                        username: s.subrange(i, u),
                        password: Some(s.subrange(u + 1, p)),
                    },
                    p + 1,
                ),
            )
        } else {
            None
        }
    } else if at(s, u) == AT_SIGN {
        Some((UriAuthView { username: s.subrange(i, u), password: None }, u + 1))
    } else {
        None
    }
}

/// A dot at `i` and a number up to 255 behind it.
pub open spec fn spec_dot_octet(s: Seq<u8>, i: int) -> Option<(nat, int)> {
    if at(s, i) == DOT {
        spec_number(s, i + 1, 255)
    } else {
        None
    }
}

/// The dotted quad at `i`: four numbers up to 255 with dots between them.
pub open spec fn spec_quad(s: Seq<u8>, i: int) -> Option<((u8, u8, u8, u8), int)> {
    match spec_number(s, i, 255) {
        None => None,
        Some((a, i1)) => match spec_dot_octet(s, i1) {
            None => None,
            Some((b, i2)) => match spec_dot_octet(s, i2) {
                None => None,
                Some((c, i3)) => match spec_dot_octet(s, i3) {
                    None => None,
                    Some((d, i4)) => Some(((a as u8, b as u8, c as u8, d as u8), i4)),
                },
            },
        },
    }
}

/// The port at `i`: a colon and a number up to 65535. Where that is not
/// there, no port, and the position stays.
pub open spec fn spec_port(s: Seq<u8>, i: int) -> (Option<u16>, int) {
    if at(s, i) == COLON {
        match spec_number(s, i + 1, 0xFFFF) {
            Some((v, e)) => (Some(v as u16), e),
            None => (None, i),
        }
    } else {
        (None, i)
    }
}

/// The host at `i`: a dotted quad where there is one, else a name of at
/// least one byte; then the port.
pub open spec fn spec_host(s: Seq<u8>, i: int) -> Option<(DomainView, int)> {
    match spec_quad(s, i) {
        Some((quad, e)) => Some((DomainView::Ipv4(quad, spec_port(s, e).0), spec_port(s, e).1)),
        None => {
            let e = run_end(s, i, Class::Label);
            if e <= i {
                None
            } else {
                Some(
                    (
                        DomainView::Domain(s.subrange(i, e), spec_port(s, e).0),
                        spec_port(s, e).1,
                    ),
                )
            }
        },
    }
}

/// The pair at `i`: a semicolon, a key of letters, `=`, a value of letters
/// and digits. Key and value may be empty.
pub open spec fn spec_pair(s: Seq<u8>, i: int) -> Option<((Seq<u8>, Seq<u8>), int)> {
    if at(s, i) != SEMICOLON {
        None
    } else {
        let k = run_end(s, i + 1, Class::Alpha);
        if at(s, k) != EQUALS {
            None
        } else {
            let v = run_end(s, k + 1, Class::Alnum);
            Some(((s.subrange(i + 1, k), s.subrange(k + 1, v)), v))
        }
    }
}

/// The parameters from `i` on, put into `acc` one after the other until no
/// pair follows, and the position at which that is.
pub open spec fn spec_params(s: Seq<u8>, i: int, acc: Seq<ParamView>) -> (Seq<ParamView>, int)
    decreases s.len() - i,
{
    match spec_pair(s, i) {
        Some(((key, value), e)) if i < e <= s.len() => spec_params(
            s,
            e,
            spec_put(acc, spec_classify(key, value)),
        ),
        _ => (acc, i),
    }
}

/// The URI at `i`, and the position behind it.
pub open spec fn spec_uri(s: Seq<u8>, i: int) -> Option<(UriView, int)> {
    match spec_schema(s, i) {
        None => None,
        Some((scheme, i0)) => {
            let auth = spec_auth(s, i0);
            let i1 = if auth.is_some() {
                auth.unwrap().1
            } else {
                i0
            };
            match spec_host(s, i1) {
                None => None,
                Some((host, i2)) => {
                    let (parameters, i3) = spec_params(s, i2, Seq::empty());
                    Some(
                        (
                            UriView {
                                scheme,
                                host,
                                auth: if auth.is_some() {
                                    Some(auth.unwrap().0)
                                } else {
                                    None
                                },
                                parameters,
                            },
                            i3,
                        ),
                    )
                },
            }
        },
    }
}

} // verus!
