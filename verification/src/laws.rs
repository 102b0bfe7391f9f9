//! Laws relating the parsing and the rendering of tag lists.

use vstd::prelude::*;
use crate::order::{strictly_sorted, lemma_lex_lt_trichotomy};
use crate::tags::{parse_post, pieces_norm};
use crate::text::{
    trim_spec, normalize_tag, split_commas, render_spec, space_to_underscore, is_ws,
    lemma_trim_ends, lemma_trim_fixed, lemma_trim_chars, trim_within, lemma_split_no_comma,
    lemma_split_whole,
};

verus! {

/// A normalized piece neither begins nor ends with whitespace, holds no space,
/// and, when the raw piece held no comma, holds no comma either.
proof fn lemma_normalized_tag(p: Seq<char>)
    ensures
        normalize_tag(p).len() > 0 ==> !is_ws(normalize_tag(p)[0]) && !is_ws(
            normalize_tag(p).last(),
        ),
        forall|j: int| 0 <= j < normalize_tag(p).len() ==> #[trigger] normalize_tag(p)[j] != ' ',
        (forall|j: int| 0 <= j < p.len() ==> p[j] != ',') ==> (forall|j: int|
            0 <= j < normalize_tag(p).len() ==> #[trigger] normalize_tag(p)[j] != ','),
{
    let t = trim_spec(p);
    let x = normalize_tag(p);
    lemma_trim_ends(p);
    assert(forall|j: int| 0 <= j < x.len() ==> #[trigger] x[j] == space_to_underscore(t[j]));
    if x.len() > 0 {
        assert(!is_ws(t[0]) && !is_ws(t.last()));
        assert(x[0] == space_to_underscore(t[0]));
        assert(is_ws(' '));
        assert(x.last() == space_to_underscore(t[x.len() - 1]));
    }
    if forall|j: int| 0 <= j < p.len() ==> p[j] != ',' {
        lemma_trim_chars(p);
        let a = choose|a: int|
            {
                &&& 0 <= a
                &&& a + trim_spec(p).len() <= p.len()
                &&& #[trigger] trim_within(p, a)
            };
        assert forall|j: int| 0 <= j < x.len() implies #[trigger] x[j] != ',' by {
            assert(t[j] == p[a + j]);
            assert(x[j] == space_to_underscore(t[j]));
        }
    }
}

/// A strictly sorted sequence holding exactly one value is that singleton.
proof fn lemma_sorted_singleton(r: Seq<Seq<char>>, x: Seq<char>)
    requires
        strictly_sorted(r),
        r.to_set() == seq![x].to_set(),
    ensures
        r == seq![x],
{
    assert(seq![x][0] == x);
    assert(seq![x].to_set().contains(x));
    assert(r.contains(x));
    assert(r.len() > 0);
    assert forall|i: int| 0 <= i < r.len() implies r[i] == x by {
        assert(r.to_set().contains(r[i]));
        assert(seq![x].contains(r[i]));
    }
    if r.len() >= 2 {
        lemma_lex_lt_trichotomy(r[0], r[1]);
        assert(false);
    }
    assert(r =~= seq![x]);
}

/// Parsing, rendering, parsing again and rendering again gives the same text
/// as the first rendering, for any input whose parse holds at most one tag.
/// (A larger list renders as a space-joined text, which re-parses as a single
/// tag whose spaces have become underscores.)
pub proof fn lemma_parse_render_idempotent(s: Seq<char>, t1: Seq<Seq<char>>, t2: Seq<Seq<char>>)
    requires
        parse_post(s, t1),
        t1.len() <= 1,
        parse_post(render_spec(t1), t2),
    ensures
        render_spec(t2) == render_spec(t1),
{
    if t1.len() == 0 {
        assert(render_spec(t1) == Seq::<char>::empty());
        assert(trim_spec(Seq::<char>::empty()).len() == 0);
        assert(t2 == Seq::<Seq<char>>::empty());
    } else {
        let x = t1[0];
        assert(render_spec(t1) == x);
        assert(t1.to_set().contains(x));
        if trim_spec(s).len() == 0 {
            assert(t1 == Seq::<Seq<char>>::empty());
            assert(false);
        }
        assert(pieces_norm(s).to_set().contains(x));
        assert(pieces_norm(s).contains(x));
        let k = choose|k: int| 0 <= k < pieces_norm(s).len() && pieces_norm(s)[k] == x;
        let p = split_commas(s)[k];
        assert(x == normalize_tag(p));
        lemma_split_no_comma(s);
        assert(forall|j: int| 0 <= j < p.len() ==> #[trigger] p[j] != ',');
        lemma_normalized_tag(p);
        if x.len() == 0 {
            assert(trim_spec(x).len() == 0);
            assert(t2 == Seq::<Seq<char>>::empty());
            assert(render_spec(t2) == Seq::<char>::empty());
            assert(render_spec(t2) =~= x);
        } else {
            lemma_trim_fixed(x);
            assert(trim_spec(x) == x);
            lemma_split_whole(x);
            assert(split_commas(x) == seq![x]);
            assert(pieces_norm(x).len() == 1);
            assert(pieces_norm(x)[0] == normalize_tag(x));
            assert(normalize_tag(x) =~= x) by {
                assert(forall|j: int|
                    0 <= j < normalize_tag(x).len() ==> #[trigger] normalize_tag(x)[j]
                        == space_to_underscore(trim_spec(x)[j]));
                assert forall|j: int| 0 <= j < x.len() implies #[trigger] normalize_tag(x)[j]
                    == x[j] by {
                    assert(x[j] != ' ');
                    assert(normalize_tag(x)[j] == space_to_underscore(x[j]));
                }
            }
            assert(pieces_norm(x) =~= seq![x]);
            assert(trim_spec(render_spec(t1)).len() > 0);
            lemma_sorted_singleton(t2, x);
            assert(render_spec(t2) == x);
        }
    }
}

} // verus!
