//! The value of a named header (From, To, Contact):
//! `[ display-name SP ] [ "<" ] uri [ ">" ] *( ";" key "=" value )`.

use crate::lexical::at;
use crate::lexical::byte_is;
use crate::lexical::copy_range;
use crate::lexical::run_end;
use crate::lexical::same_bytes;
use crate::lexical::scan;
use crate::lexical::Class;
use crate::parse::pair_at;
use crate::parse::uri_at;
use crate::render::push_all;
use crate::render::push_pair;
use crate::render::render_pair;
use crate::render::render_uri;
use crate::uri::{spec_pair, spec_uri, unique_keys, ParseError, Uri, UriView};
use vstd::prelude::*;
use vstd::slice::slice_subrange;

verus! {

pub const QUOTE: u8 = 0x22;

pub const SPACE: u8 = 0x20;

pub const LEFT_ANGLE: u8 = 0x3C;

pub const RIGHT_ANGLE: u8 = 0x3E;

/// A parameter of a header: its key and its value.
#[derive(Clone, Debug, PartialEq, Eq)]
pub struct Pair {
    pub key: Vec<u8>,
    pub value: Vec<u8>,
}

/// Header value for named headers, e.g. From, To, Contact. The parameters
/// are held in the order in which they came.
#[derive(Clone, Debug, PartialEq, Eq)]
pub struct NamedHeader {
    pub display_name: Option<Vec<u8>>,
    pub uri: Uri,
    pub params: Vec<Pair>,
}

/// A header as the contracts speak of it: texts as sequences of bytes, the
/// parameters as a sequence of keys and values in the order in which they
/// are held.
pub struct NamedHeaderView {
    pub display_name: Option<Seq<u8>>,
    pub uri: UriView,
    pub params: Seq<(Seq<u8>, Seq<u8>)>,
}

impl View for Pair {
    type V = (Seq<u8>, Seq<u8>);

    open spec fn view(&self) -> (Seq<u8>, Seq<u8>) {
        (self.key@, self.value@)
    }
}

/// The pairs of a list, each by its view.
pub open spec fn pairs_view(v: Seq<Pair>) -> Seq<(Seq<u8>, Seq<u8>)> {
    v.map_values(|p: Pair| p@)
}

/// A text that may be there, by its view.
pub open spec fn name_view(name: Option<Vec<u8>>) -> Option<Seq<u8>> {
    match name {
        Some(n) => Some(n@),
        None => None,
    }
}

impl View for NamedHeader {
    type V = NamedHeaderView;

    open spec fn view(&self) -> NamedHeaderView {
        NamedHeaderView {
            display_name: name_view(self.display_name),
            uri: self.uri@,
            params: pairs_view(self.params@),
        }
    }
}

/// The first position from `j` on at which `ps` holds the key `k`, or the
/// length of `ps`.
pub open spec fn pair_pos(ps: Seq<(Seq<u8>, Seq<u8>)>, k: Seq<u8>, j: int) -> int
    decreases ps.len() - j,
{
    if j < 0 || j >= ps.len() {
        ps.len() as int
    } else if ps[j].0 == k {
        j
    } else {
        pair_pos(ps, k, j + 1)
    }
}

/// `ps` with the pair `p` in it: in the place of the pair that has its key,
/// or at the end where none has.
pub open spec fn spec_put_pair(ps: Seq<(Seq<u8>, Seq<u8>)>, p: (Seq<u8>, Seq<u8>)) -> Seq<
    (Seq<u8>, Seq<u8>),
> {
    let j = pair_pos(ps, p.0, 0);
    if j < ps.len() {
        ps.update(j, p)
    } else {
        ps.push(p)
    }
}

/// No two pairs have the same key.
pub open spec fn unique_pairs(ps: Seq<(Seq<u8>, Seq<u8>)>) -> bool {
    forall|a: int, b: int|
        0 <= a < ps.len() && 0 <= b < ps.len() && a != b ==> (#[trigger] ps[a]).0 != (
        #[trigger] ps[b]).0
}

/// Where `pair_pos` stops, the key is; before that it is not.
pub proof fn lemma_pair_pos(ps: Seq<(Seq<u8>, Seq<u8>)>, k: Seq<u8>, j: int)
    requires
        0 <= j <= ps.len(),
    ensures
        j <= pair_pos(ps, k, j) <= ps.len(),
        pair_pos(ps, k, j) < ps.len() ==> ps[pair_pos(ps, k, j)].0 == k,
        forall|i: int| j <= i < pair_pos(ps, k, j) ==> (#[trigger] ps[i]).0 != k,
    decreases ps.len() - j,
{
    if j < ps.len() && ps[j].0 != k {
        lemma_pair_pos(ps, k, j + 1);
    }
}

/// Putting a pair into a list without a repeated key leaves it so.
pub proof fn lemma_put_pair_unique(ps: Seq<(Seq<u8>, Seq<u8>)>, p: (Seq<u8>, Seq<u8>))
    requires
        unique_pairs(ps),
    ensures
        unique_pairs(spec_put_pair(ps, p)),
{
    lemma_pair_pos(ps, p.0, 0);
    let j = pair_pos(ps, p.0, 0);
    let r = spec_put_pair(ps, p);
    assert forall|a: int, b: int| 0 <= a < r.len() && 0 <= b < r.len() && a != b implies (
    #[trigger] r[a]).0 != (#[trigger] r[b]).0 by {
        if j < ps.len() {
            assert(r[a].0 == ps[a].0);
            assert(r[b].0 == ps[b].0);
        } else {
            if a < ps.len() {
                assert(r[a] == ps[a]);
            }
            if b < ps.len() {
                assert(r[b] == ps[b]);
            }
        }
    }
}

/// The quoted string at `i`: a double quote, the bytes up to the next double
/// quote, and that quote. The string is what stands between them.
pub open spec fn spec_quoted(s: Seq<u8>, i: int) -> Option<(Seq<u8>, int)> {
    if at(s, i) != QUOTE {
        None
    } else {
        let e = run_end(s, i + 1, Class::Unquoted);
        if at(s, e) != QUOTE {
            None
        } else {
            Some((s.subrange(i + 1, e), e + 1))
        }
    }
}

/// The unquoted string at `i`: a run of letters and the one space that must
/// follow it. The space is passed over and is not part of the string.
pub open spec fn spec_unquoted(s: Seq<u8>, i: int) -> Option<(Seq<u8>, int)> {
    let e = run_end(s, i, Class::Alpha);
    if at(s, e) != SPACE {
        None
    } else {
        Some((s.subrange(i, e), e + 1))
    }
}

/// The display name at `i`: the quoted form where it matches, else the
/// unquoted one.
pub open spec fn spec_name(s: Seq<u8>, i: int) -> Option<(Seq<u8>, int)> {
    match spec_quoted(s, i) {
        Some(x) => Some(x),
        None => spec_unquoted(s, i),
    }
}

/// The display name and the URI at `i`: the name where there is one, spaces
/// and tabs, `<` where it is there, the URI, `>` where it is there.
pub open spec fn spec_field_value(s: Seq<u8>, i: int) -> Option<((Option<Seq<u8>>, UriView), int)> {
    let name = spec_name(s, i);
    let i0 = if name.is_some() {
        name.unwrap().1
    } else {
        i
    };
    let i1 = run_end(s, i0, Class::Space);
    let i2 = if at(s, i1) == LEFT_ANGLE {
        i1 + 1
    } else {
        i1
    };
    match spec_uri(s, i2) {
        None => None,
        Some((uri, i3)) => Some(
            (
                (
                    if name.is_some() {
                        Some(name.unwrap().0)
                    } else {
                        None
                    },
                    uri,
                ),
                if at(s, i3) == RIGHT_ANGLE {
                    i3 + 1
                } else {
                    i3
                },
            ),
        ),
    }
}

/// The pairs from `i` on, put into `acc` one after the other until no pair
/// follows, and the position at which that is.
pub open spec fn spec_pairs(s: Seq<u8>, i: int, acc: Seq<(Seq<u8>, Seq<u8>)>) -> (
    Seq<(Seq<u8>, Seq<u8>)>,
    int,
)
    decreases s.len() - i,
{
    match spec_pair(s, i) {
        Some((p, e)) if i < e <= s.len() => spec_pairs(s, e, spec_put_pair(acc, p)),
        _ => (acc, i),
    }
}

/// What a parser that returns the rest of its input owes: the value that the
/// grammar gives and the bytes from its end on, or the error.
pub open spec fn owes(
    r: Result<(&[u8], Vec<u8>), ParseError>,
    s: Seq<u8>,
    m: Option<(Seq<u8>, int)>,
    e: ParseError,
) -> bool {
    match m {
        Some((v, end)) => r.is_ok() && r.unwrap().1@ == v && r.unwrap().0@ == s.subrange(
            end,
            s.len() as int,
        ),
        None => r == Err::<(&[u8], Vec<u8>), ParseError>(e),
    }
}

/// Reads a quoted string at a position of the input.
pub fn quoted_at(input: &[u8], i: usize) -> (r: Option<(Vec<u8>, usize)>)
    requires
        i <= input.len(),
    ensures
        match spec_quoted(input@, i as int) {
            Some((v, e)) => r.is_some() && r.unwrap().0@ == v && r.unwrap().1 == e && i < e
                <= input.len(),
            None => r.is_none(),
        },
{
    if !byte_is(input, i, QUOTE) {
        return None;
    }
    let e = scan(input, i + 1, Class::Unquoted);
    if !byte_is(input, e, QUOTE) {
        return None;
    }
    Some((copy_range(input, i + 1, e), e + 1))
}

/// Reads an unquoted string at a position of the input.
pub fn unquoted_at(input: &[u8], i: usize) -> (r: Option<(Vec<u8>, usize)>)
    requires
        i <= input.len(),
    ensures
        match spec_unquoted(input@, i as int) {
            Some((v, e)) => r.is_some() && r.unwrap().0@ == v && r.unwrap().1 == e && i < e
                <= input.len(),
            None => r.is_none(),
        },
{
    let e = scan(input, i, Class::Alpha);
    if !byte_is(input, e, SPACE) {
        return None;
    }
    Some((copy_range(input, i, e), e + 1))
}

/// Reads a display name at a position of the input.
pub fn name_at(input: &[u8], i: usize) -> (r: Option<(Vec<u8>, usize)>)
    requires
        i <= input.len(),
    ensures
        match spec_name(input@, i as int) {
            Some((v, e)) => r.is_some() && r.unwrap().0@ == v && r.unwrap().1 == e && i < e
                <= input.len(),
            None => r.is_none(),
        },
{
    match quoted_at(input, i) {
        Some(x) => Some(x),
        None => unquoted_at(input, i),
    }
}

/// Parse a text between double quotes.
pub fn parse_quoted_string(input: &[u8]) -> (r: Result<(&[u8], Vec<u8>), ParseError>)
    ensures
        owes(r, input@, spec_quoted(input@, 0), ParseError::MissingToken),
{
    match quoted_at(input, 0) {
        Some((v, e)) => Ok((slice_subrange(input, e, input.len()), v)),
        None => Err(ParseError::MissingToken),
    }
}

/// Parse a text that is not quoted: letters, up to the space that must
/// follow them.
pub fn parse_unquoted_string(input: &[u8]) -> (r: Result<(&[u8], Vec<u8>), ParseError>)
    ensures
        owes(r, input@, spec_unquoted(input@, 0), ParseError::MissingToken),
{
    match unquoted_at(input, 0) {
        Some((v, e)) => Ok((slice_subrange(input, e, input.len()), v)),
        None => Err(ParseError::MissingToken),
    }
}

/// Parse the name part of the header: quoted, or else unquoted.
pub fn parse_name(input: &[u8]) -> (r: Result<(&[u8], Vec<u8>), ParseError>)
    ensures
        owes(r, input@, spec_name(input@, 0), ParseError::NoAlternative),
{
    match name_at(input, 0) {
        Some((v, e)) => Ok((slice_subrange(input, e, input.len()), v)),
        None => Err(ParseError::NoAlternative),
    }
}

/// Parse a single parameter of a header.
pub fn parse_named_field_param(input: &[u8]) -> (r: Result<(&[u8], (Vec<u8>, Vec<u8>)), ParseError>)
    ensures
        match spec_pair(input@, 0) {
            Some(((k, v), e)) => r.is_ok() && r.unwrap().1.0@ == k && r.unwrap().1.1@ == v
                && r.unwrap().0@ == input@.subrange(e, input@.len() as int),
            None => r == Err::<(&[u8], (Vec<u8>, Vec<u8>)), ParseError>(
                ParseError::MissingToken,
            ),
        },
{
    match pair_at(input, 0) {
        Some((p, e)) => Ok((slice_subrange(input, e, input.len()), p)),
        None => Err(ParseError::MissingToken),
    }
}

/// Parse the display name and the URI of a header. Fails where no URI is
/// found.
pub fn parse_named_field_value(input: &[u8]) -> (r: Result<
    (&[u8], (Option<Vec<u8>>, Uri)),
    ParseError,
>)
    ensures
        match spec_field_value(input@, 0) {
            Some(((name, uri), e)) => r.is_ok() && name_view(r.unwrap().1.0) == name
                && r.unwrap().1.1@ == uri && unique_keys(uri.parameters) && r.unwrap().0@
                == input@.subrange(e, input@.len() as int),
            None => r == Err::<(&[u8], (Option<Vec<u8>>, Uri)), ParseError>(
                ParseError::MissingToken,
            ),
        },
{
    let (name, i0) = match name_at(input, 0) {
        Some((n, e)) => (Some(n), e),
        None => (None, 0),
    };
    let i1 = scan(input, i0, Class::Space);
    let i2 = if byte_is(input, i1, LEFT_ANGLE) {
        i1 + 1
    } else {
        i1
    };
    let (uri, i3) = match uri_at(input, i2) {
        Some(x) => x,
        None => { return Err(ParseError::MissingToken); },
    };
    let i4 = if byte_is(input, i3, RIGHT_ANGLE) {
        i3 + 1
    } else {
        i3
    };
    Ok((slice_subrange(input, i4, input.len()), (name, uri)))
}

/// Puts the pair `p` into `pairs`: in the place of the pair that has its
/// key, or at the end where none has.
pub fn put_pair(pairs: &mut Vec<Pair>, p: Pair)
    ensures
        pairs_view(final(pairs)@) == spec_put_pair(pairs_view(old(pairs)@), p@),
{
    let ghost ps = pairs_view(pairs@);
    let mut j: usize = 0;
    while j < pairs.len()
        invariant
            j <= pairs.len(),
            pairs@ == old(pairs)@,
            ps == pairs_view(pairs@),
            pair_pos(ps, p@.0, 0) == pair_pos(ps, p@.0, j as int),
        decreases pairs.len() - j,
    {
        assert(ps[j as int] == pairs@[j as int]@);
        if same_bytes(pairs[j].key.as_slice(), p.key.as_slice()) {
            pairs.set(j, p);
            assert(pairs_view(pairs@) =~= ps.update(j as int, p@));
            return ;
        }
        j += 1;
    }
    pairs.push(p);
    assert(pairs_view(pairs@) =~= ps.push(p@));
}

/// Parse as many parameters of a header as the input holds. What follows
/// the last of them, well formed or not, is returned unread; this never
/// fails.
pub fn parse_named_field_params(input: &[u8]) -> (r: Result<(&[u8], Vec<Pair>), ParseError>)
    ensures
        r.is_ok(),
        pairs_view(r.unwrap().1@) == spec_pairs(input@, 0, Seq::empty()).0,
        r.unwrap().0@ == input@.subrange(
            spec_pairs(input@, 0, Seq::empty()).1,
            input@.len() as int,
        ),
        unique_pairs(pairs_view(r.unwrap().1@)),
{
    let mut pairs: Vec<Pair> = Vec::new();
    let mut pos: usize = 0;
    assert(pairs_view(pairs@) =~= Seq::empty());
    loop
        invariant
            pos <= input.len(),
            unique_pairs(pairs_view(pairs@)),
            spec_pairs(input@, 0, Seq::empty()) == spec_pairs(
                input@,
                pos as int,
                pairs_view(pairs@),
            ),
        decreases input.len() - pos,
    {
        match pair_at(input, pos) {
            Some(((key, value), e)) => {
                let p = Pair { key, value };
                proof {
                    lemma_put_pair_unique(pairs_view(pairs@), p@);
                }
                put_pair(&mut pairs, p);
                pos = e;
            },
            None => { return Ok((slice_subrange(input, pos, input.len()), pairs)); },
        }
    }
}

/// The text of the pairs, in the order in which they are held.
pub open spec fn render_pairs(ps: Seq<(Seq<u8>, Seq<u8>)>) -> Seq<u8>
    decreases ps.len(),
{
    if ps.len() == 0 {
        Seq::empty()
    } else {
        render_pairs(ps.drop_last()) + render_pair(ps.last().0, ps.last().1)
    }
}

/// Whether a display name is written between double quotes: where it is
/// empty or holds a space.
pub open spec fn quotes_needed(name: Seq<u8>) -> bool {
    name.len() == 0 || name.contains(SPACE)
}

/// The text of a display name: between double quotes where it is empty or
/// holds a space, else as it is.
pub open spec fn render_name(name: Seq<u8>) -> Seq<u8> {
    if quotes_needed(name) {
        seq![QUOTE] + name + seq![QUOTE]
    } else {
        name
    }
}

/// The text of a named header: the URI alone where there is no display
/// name, else the name, a space and the URI in angle brackets; then the
/// parameters.
pub open spec fn render_header(h: NamedHeaderView) -> Seq<u8> {
    (match h.display_name {
        None => render_uri(h.uri),
        Some(name) => render_name(name) + seq![SPACE, LEFT_ANGLE] + render_uri(h.uri)
            + seq![RIGHT_ANGLE],
    }) + render_pairs(h.params)
}

/// Whether `name` is empty or holds a space.
pub fn needs_quotes(name: &[u8]) -> (r: bool)
    ensures
        r == quotes_needed(name@),
{
    if name.len() == 0 {
        return true;
    }
    let mut i: usize = 0;
    while i < name.len()
        invariant
            i <= name.len(),
            forall|k: int| 0 <= k < i ==> name@[k] != SPACE,
        decreases name.len() - i,
    {
        if name[i] == SPACE {
            assert(name@[i as int] == SPACE);
            return true;
        }
        i += 1;
    }
    false
}

impl NamedHeader {
    /// No two parameters of the header have the same key, and no two of its
    /// URI.
    pub open spec fn wf(&self) -> bool {
        unique_pairs(self@.params) && unique_keys(self@.uri.parameters)
    }

    /// A header of a URI, without display name or parameters.
    pub fn new(uri: Uri) -> (r: NamedHeader)
        ensures
            r@ == (NamedHeaderView { display_name: None, uri: uri@, params: Seq::empty() }),
            uri.wf() ==> r.wf(),
    {
        let r = NamedHeader { display_name: None, params: Vec::new(), uri };
        assert(pairs_view(r.params@) =~= Seq::empty());
        r
    }

    /// The same header with the display name `name`.
    pub fn name(self, name: &[u8]) -> (r: NamedHeader)
        ensures
            r@ == (NamedHeaderView { display_name: Some(name@), ..self@ }),
            self.wf() ==> r.wf(),
    {
        let mut text: Vec<u8> = Vec::new();
        push_all(&mut text, name);
        assert(text@ =~= name@);
        NamedHeader { display_name: Some(text), uri: self.uri, params: self.params }
    }

    /// The same header with the parameter `key`, `value`, which takes the
    /// place of one with the same key.
    pub fn param(self, key: &[u8], value: &[u8]) -> (r: NamedHeader)
        ensures
            r@ == (NamedHeaderView {
                params: spec_put_pair(self@.params, (key@, value@)),
                ..self@
            }),
            self.wf() ==> r.wf(),
    {
        proof {
            if self.wf() {
                lemma_put_pair_unique(self@.params, (key@, value@));
            }
        }
        let mut k: Vec<u8> = Vec::new();
        push_all(&mut k, key);
        let mut v: Vec<u8> = Vec::new();
        push_all(&mut v, value);
        assert(k@ =~= key@ && v@ =~= value@);
        let mut params = self.params;
        put_pair(&mut params, Pair { key: k, value: v });
        NamedHeader { display_name: self.display_name, uri: self.uri, params }
    }

    /// The text of the header.
    pub fn render(&self) -> (r: Vec<u8>)
        ensures
            r@ == render_header(self@),
    {
        let mut out: Vec<u8> = Vec::new();
        match &self.display_name {
            Some(name) => {
                if needs_quotes(name.as_slice()) {
                    out.push(QUOTE);
                    push_all(&mut out, name.as_slice());
                    out.push(QUOTE);
                } else {
                    push_all(&mut out, name.as_slice());
                }
                out.push(SPACE);
                out.push(LEFT_ANGLE);
                self.uri.write(&mut out);
                out.push(RIGHT_ANGLE);
            },
            None => {
                self.uri.write(&mut out);
            },
        }
        let ghost head = out@;
        let ghost ps = self@.params;
        assert(head + render_pairs(ps) =~= render_header(self@));
        let mut i: usize = 0;
        assert(ps.take(0) =~= Seq::empty());
        while i < self.params.len()
            invariant
                i <= self.params.len(),
                ps == pairs_view(self.params@),
                out@ == head + render_pairs(ps.take(i as int)),
            decreases self.params.len() - i,
        {
            push_pair(&mut out, self.params[i].key.as_slice(), self.params[i].value.as_slice());
            proof {
                let next = ps.take(i + 1);
                assert(next.drop_last() =~= ps.take(i as int));
                assert(next.last() == self.params@[i as int]@);
                assert(out@ =~= head + render_pairs(next));
            }
            i += 1;
        }
        assert(ps.take(i as int) =~= ps);
        out
    }
}

} // verus!
