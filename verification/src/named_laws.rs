//! What holds between the text of a named header and what is read from it.

use crate::laws::{
    closed, lemma_at, lemma_layout, lemma_pair_over, lemma_run_over, lemma_split,
    lemma_uri_over, located, writable,
};
use crate::lexical::{at, run_end, Class};
use crate::named::{
    lemma_pair_pos, pair_pos, quotes_needed, render_header, render_name, render_pairs,
    spec_field_value, spec_name, spec_pairs, spec_put_pair, spec_quoted, spec_unquoted,
    unique_pairs, NamedHeaderView, LEFT_ANGLE, QUOTE, RIGHT_ANGLE, SPACE,
};
use crate::render::{render_pair, render_uri};
use crate::uri::{schema_text, spec_pair, spec_uri, unique_keys, Schema, UriView, COLON};
use vstd::prelude::*;

verus! {

/// A display name that is written as it is read: one that is written
/// between quotes holds no double quote, any other holds letters only.
pub open spec fn name_writable(name: Seq<u8>) -> bool {
    if quotes_needed(name) {
        Class::Unquoted.all(name)
    } else {
        Class::Alpha.all(name)
    }
}

/// A header whose parts are written as the grammar reads them: a writable
/// URI and display name, keys of letters, values of letters and digits, no
/// key twice. A header without display name has no parameters of its own:
/// its URI is written without angle brackets, and what follows it is read
/// as parameters of the URI.
pub open spec fn header_writable(h: NamedHeaderView) -> bool {
    &&& writable(h.uri)
    &&& unique_keys(h.uri.parameters)
    &&& unique_pairs(h.params)
    &&& forall|k: int|
        0 <= k < h.params.len() ==> Class::Alpha.all((#[trigger] h.params[k]).0)
            && Class::Alnum.all(h.params[k].1)
    &&& match h.display_name {
        Some(name) => name_writable(name),
        None => h.params.len() == 0,
    }
}

/// The text of the first `k` pairs stands where the text of all of them
/// stands, and behind it the text of the next one, if there is one.
proof fn lemma_pairs_prefix(s: Seq<u8>, i: int, ps: Seq<(Seq<u8>, Seq<u8>)>, k: int)
    requires
        located(s, i, render_pairs(ps)),
        0 <= k <= ps.len(),
    ensures
        located(s, i, render_pairs(ps.take(k))),
        k < ps.len() ==> located(
            s,
            i + render_pairs(ps.take(k)).len(),
            render_pair(ps[k].0, ps[k].1),
        ) && render_pairs(ps.take(k + 1)).len() == render_pairs(ps.take(k)).len() + render_pair(
            ps[k].0,
            ps[k].1,
        ).len(),
        k == ps.len() ==> render_pairs(ps.take(k)) == render_pairs(ps),
    decreases ps.len() - k,
{
    if k < ps.len() {
        lemma_pairs_prefix(s, i, ps, k + 1);
        let next = ps.take(k + 1);
        assert(next.drop_last() =~= ps.take(k));
        assert(next.last() == ps[k]);
        lemma_split(s, i, render_pairs(ps.take(k)), render_pair(ps[k].0, ps[k].1));
    } else {
        assert(ps.take(k) =~= ps);
    }
}

/// Behind each pair of a text of pairs that reaches the end of `s` stands
/// the end or a semicolon.
proof fn lemma_pairs_closed(s: Seq<u8>, i: int, ps: Seq<(Seq<u8>, Seq<u8>)>, k: int)
    requires
        located(s, i, render_pairs(ps)),
        i + render_pairs(ps).len() == s.len(),
        0 <= k <= ps.len(),
    ensures
        closed(s, i + render_pairs(ps.take(k)).len()),
{
    lemma_pairs_prefix(s, i, ps, k);
    if k < ps.len() {
        lemma_at(s, i + render_pairs(ps.take(k)).len(), render_pair(ps[k].0, ps[k].1), 0);
    }
}

/// A pair whose key no pair of the list has is put at its end.
proof fn lemma_put_pair_new(ps: Seq<(Seq<u8>, Seq<u8>)>, k: int)
    requires
        unique_pairs(ps),
        0 <= k < ps.len(),
    ensures
        spec_put_pair(ps.take(k), ps[k]) == ps.take(k + 1),
{
    let head = ps.take(k);
    lemma_pair_pos(head, ps[k].0, 0);
    let j = pair_pos(head, ps[k].0, 0);
    if j < head.len() {
        assert(head[j] == ps[j]);
        assert(ps[j].0 == ps[k].0);
    }
    assert(head.push(ps[k]) =~= ps.take(k + 1));
}

/// Behind the text of the first `k` pairs, with those at hand, the rest of
/// them are read up to the end of `s`.
proof fn lemma_pairs_from(s: Seq<u8>, i: int, ps: Seq<(Seq<u8>, Seq<u8>)>, k: int)
    requires
        located(s, i, render_pairs(ps)),
        i + render_pairs(ps).len() == s.len(),
        unique_pairs(ps),
        forall|j: int|
            0 <= j < ps.len() ==> Class::Alpha.all((#[trigger] ps[j]).0) && Class::Alnum.all(
                ps[j].1,
            ),
        0 <= k <= ps.len(),
    ensures
        spec_pairs(s, i + render_pairs(ps.take(k)).len(), ps.take(k)) == (ps, s.len() as int),
    decreases ps.len() - k,
{
    let pos = i + render_pairs(ps.take(k)).len();
    lemma_pairs_prefix(s, i, ps, k);
    if k < ps.len() {
        let p = ps[k];
        lemma_pairs_prefix(s, i, ps, k + 1);
        lemma_pairs_closed(s, i, ps, k + 1);
        lemma_pair_over(s, pos, p.0, p.1);
        lemma_put_pair_new(ps, k);
        lemma_pairs_from(s, i, ps, k + 1);
    } else {
        assert(ps.take(k) =~= ps);
        assert(spec_pair(s, pos).is_none());
    }
}

/// A writable display name, written and followed by a space and `<`, is
/// read as that name, and the space behind it is passed over.
proof fn lemma_name_over(s: Seq<u8>, name: Seq<u8>)
    requires
        located(s, 0, render_name(name)),
        located(s, render_name(name).len() as int, seq![SPACE, LEFT_ANGLE]),
        name_writable(name),
    ensures
        spec_name(s, 0).is_some(),
        spec_name(s, 0).unwrap().0 == name,
        run_end(s, spec_name(s, 0).unwrap().1, Class::Space) == render_name(name).len() as int + 1,
        at(s, render_name(name).len() as int + 1) == LEFT_ANGLE,
{
    let n = name.len() as int;
    let open = seq![SPACE, LEFT_ANGLE];
    let a = render_name(name).len() as int;
    lemma_at(s, a, open, 0);
    lemma_at(s, a, open, 1);
    if quotes_needed(name) {
        let quote = seq![QUOTE];
        lemma_split(s, 0, quote + name, quote);
        lemma_split(s, 0, quote, name);
        lemma_at(s, 0, quote, 0);
        lemma_at(s, n + 1, quote, 0);
        lemma_run_over(s, 1, name, Class::Unquoted);
        assert(spec_quoted(s, 0) == Some((name, n + 2)));
        assert(open =~= seq![SPACE] + seq![LEFT_ANGLE]);
        lemma_split(s, a, seq![SPACE], seq![LEFT_ANGLE]);
        assert(Class::Space.all(seq![SPACE]));
        lemma_run_over(s, a, seq![SPACE], Class::Space);
    } else {
        lemma_at(s, 0, name, 0);
        assert(Class::Alpha.has(name[0]));
        lemma_run_over(s, 0, name, Class::Alpha);
        assert(spec_quoted(s, 0).is_none());
        assert(spec_unquoted(s, 0) == Some((name, n + 1)));
    }
}

/// What is read from a text in which a display name or none, spaces, `<`
/// or none, and a URI are read one behind the other.
proof fn lemma_value_of_parts(
    s: Seq<u8>,
    name: Option<Seq<u8>>,
    uri: UriView,
    i0: int,
    i2: int,
    i3: int,
)
    requires
        match name {
            Some(n) => spec_name(s, 0) == Some((n, i0)),
            None => spec_name(s, 0).is_none() && i0 == 0,
        },
        i2 == run_end(s, i0, Class::Space) + if at(s, run_end(s, i0, Class::Space))
            == LEFT_ANGLE {
            1int
        } else {
            0int
        },
        spec_uri(s, i2) == Some((uri, i3)),
    ensures
        spec_field_value(s, 0) == Some(
            (
                (name, uri),
                if at(s, i3) == RIGHT_ANGLE {
                    i3 + 1
                } else {
                    i3
                },
            ),
        ),
{
}

/// Where the parts of the text of a header with a display name stand.
proof fn lemma_named_layout(h: NamedHeaderView, name: Seq<u8>)
    requires
        h.display_name == Some(name),
    ensures
        located(render_header(h), 0, render_name(name)),
        located(render_header(h), render_name(name).len() as int, seq![SPACE, LEFT_ANGLE]),
        located(render_header(h), render_name(name).len() as int + 2, render_uri(h.uri)),
        located(
            render_header(h),
            render_name(name).len() as int + 2 + render_uri(h.uri).len(),
            seq![RIGHT_ANGLE],
        ),
        located(
            render_header(h),
            render_name(name).len() as int + 3 + render_uri(h.uri).len(),
            render_pairs(h.params),
        ),
        render_header(h).len() == render_name(name).len() as int + 3 + render_uri(h.uri).len()
            + render_pairs(h.params).len(),
{
    let s = render_header(h);
    let shown = render_name(name);
    let open = seq![SPACE, LEFT_ANGLE];
    let text = render_uri(h.uri);
    let close = seq![RIGHT_ANGLE];
    let tail = render_pairs(h.params);
    assert(s.subrange(0, s.len() as int) =~= s);
    lemma_split(s, 0, shown + open + text + close, tail);
    lemma_split(s, 0, shown + open + text, close);
    lemma_split(s, 0, shown + open, text);
    lemma_split(s, 0, shown, open);
}

/// A text in which the parts of a writable header with a display name
/// stand one behind the other reads back as those parts.
proof fn lemma_named_over(s: Seq<u8>, h: NamedHeaderView, name: Seq<u8>)
    requires
        h.display_name == Some(name),
        header_writable(h),
        located(s, 0, render_name(name)),
        located(s, render_name(name).len() as int, seq![SPACE, LEFT_ANGLE]),
        located(s, render_name(name).len() as int + 2, render_uri(h.uri)),
        located(s, render_name(name).len() as int + 2 + render_uri(h.uri).len(), seq![RIGHT_ANGLE]),
        located(s, render_name(name).len() as int + 3 + render_uri(h.uri).len(), render_pairs(h.params)),
        s.len() == render_name(name).len() as int + 3 + render_uri(h.uri).len() + render_pairs(
            h.params,
        ).len(),
    ensures
        spec_field_value(s, 0) == Some(
            ((h.display_name, h.uri), render_name(name).len() as int + 3 + render_uri(h.uri).len()),
        ),
        spec_pairs(s, render_name(name).len() as int + 3 + render_uri(h.uri).len(), Seq::empty()) == (
            h.params,
            s.len() as int,
        ),
{
    let start: int = render_name(name).len() as int + 2;
    let end: int = start + render_uri(h.uri).len();
    lemma_at(s, end, seq![RIGHT_ANGLE], 0);
    lemma_name_over(s, name);
    lemma_uri_over(s, start, h.uri);
    lemma_value_of_parts(s, h.display_name, h.uri, spec_name(s, 0).unwrap().1, start, end);
    assert(h.params.take(0) =~= Seq::<(Seq<u8>, Seq<u8>)>::empty());
    lemma_pairs_from(s, end + 1, h.params, 0);
}

/// Where a scheme and its colon stand at the start, no display name is
/// read, nor a space or `<`.
proof fn lemma_no_name(s: Seq<u8>, scheme: Schema)
    requires
        located(s, 0, schema_text(scheme)),
        located(s, schema_text(scheme).len() as int, seq![COLON]),
    ensures
        spec_name(s, 0).is_none(),
        run_end(s, 0, Class::Space) == 0,
        at(s, 0) != LEFT_ANGLE,
{
    let st = schema_text(scheme);
    lemma_at(s, 0, st, 0);
    lemma_at(s, st.len() as int, seq![COLON], 0);
    assert(Class::Alpha.all(st));
    lemma_run_over(s, 0, st, Class::Alpha);
}

/// The text of a writable URI alone reads back as a header without display
/// name.
proof fn lemma_unnamed_over(s: Seq<u8>, uri: UriView)
    requires
        located(s, 0, render_uri(uri)),
        s.len() == render_uri(uri).len(),
        writable(uri),
        unique_keys(uri.parameters),
    ensures
        spec_field_value(s, 0) == Some(((None::<Seq<u8>>, uri), s.len() as int)),
        spec_pairs(s, s.len() as int, Seq::empty()) == (
            Seq::<(Seq<u8>, Seq<u8>)>::empty(),
            s.len() as int,
        ),
{
    lemma_uri_over(s, 0, uri);
    lemma_layout(s, 0, uri);
    lemma_no_name(s, uri.scheme);
    lemma_value_of_parts(s, None, uri, 0, 0, s.len() as int);
    assert(spec_pair(s, s.len() as int).is_none());
}

/// The text of a writable header reads back: its display name and its URI
/// first, then, from where those end, its parameters in their order, up to
/// the end of the text.
pub proof fn law_header_round_trip(h: NamedHeaderView)
    requires
        header_writable(h),
    ensures
        spec_field_value(render_header(h), 0).is_some(),
        spec_field_value(render_header(h), 0).unwrap().0 == (h.display_name, h.uri),
        spec_pairs(
            render_header(h),
            spec_field_value(render_header(h), 0).unwrap().1,
            Seq::empty(),
        ) == (h.params, render_header(h).len() as int),
{
    match h.display_name {
        Some(name) => {
            lemma_named_layout(h, name);
            lemma_named_over(render_header(h), h, name);
        },
        None => {
            assert(h.params =~= Seq::<(Seq<u8>, Seq<u8>)>::empty());
            let s = render_header(h);
            assert(s =~= render_uri(h.uri));
            assert(s.subrange(0, s.len() as int) =~= s);
            lemma_unnamed_over(s, h.uri);
        },
    }
}

} // verus!
