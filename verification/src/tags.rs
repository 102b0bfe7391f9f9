//! The normalized tag list: parsed from a comma-delimited text field, kept
//! sorted and duplicate-free, rendered back as a space-joined text field.

use vstd::prelude::*;
use crate::order::{
    lex_lt, strictly_sorted, str_eq, str_lt, lemma_lex_lt_trichotomy, lemma_lex_lt_transitive,
};
use crate::text::{
    trim_spec, normalize_tag, split_commas, trim_str, normalize_piece, split_commas_str,
    render_spec, join_spaces,
};

verus! {

/// The comma-separated pieces of a raw tag field, each normalized.
pub open spec fn pieces_norm(s: Seq<char>) -> Seq<Seq<char>> {
    split_commas(s).map_values(|p: Seq<char>| normalize_tag(p))
}

/// What parsing a raw tag field guarantees of its result: the result is
/// strictly sorted (hence duplicate-free), it is empty when the field is blank,
/// and otherwise it holds exactly the normalized pieces of the field.
pub open spec fn parse_post(s: Seq<char>, r: Seq<Seq<char>>) -> bool {
    &&& strictly_sorted(r)
    &&& if trim_spec(s).len() == 0 {
        r == Seq::<Seq<char>>::empty()
    } else {
        r.to_set() == pieces_norm(s).to_set()
    }
}

/// The elements of `s` kept by the boolean mask `kept`, in order.
pub open spec fn mask_filter(s: Seq<Seq<char>>, kept: Seq<bool>) -> Seq<Seq<char>>
    decreases s.len(),
{
    if s.len() == 0 {
        s
    } else {
        let rest = mask_filter(s.drop_last(), kept.drop_last());
        if kept.len() > 0 && kept.last() {
            rest.push(s.last())
        } else {
            rest
        }
    }
}

/// The predicate `f`, asked about some string whose characters are `v`, may
/// answer `b`.
pub open spec fn approved<F: Fn(&str) -> bool>(f: F, v: Seq<char>, b: bool) -> bool {
    exists|t: &str| t@ == v && #[trigger] call_ensures(f, (t,), b)
}

/// The mask `kept` records, tag by tag, an answer the predicate `f` may give,
/// and `r` is the subsequence of `s` the mask keeps.
pub open spec fn filter_witness<F: Fn(&str) -> bool>(
    f: F,
    s: Seq<Seq<char>>,
    r: Seq<Seq<char>>,
    kept: Seq<bool>,
) -> bool {
    &&& kept.len() == s.len()
    &&& r == mask_filter(s, kept)
    &&& forall|k: int| 0 <= k < s.len() ==> #[trigger] approved(f, s[k], kept[k])
}

/// `m` lists, in strictly increasing order, positions of `b` at which the
/// elements of `a` stand.
pub open spec fn selects(m: Seq<int>, a: Seq<Seq<char>>, b: Seq<Seq<char>>) -> bool {
    &&& m.len() == a.len()
    &&& (forall|k: int| 0 <= k < m.len() ==> 0 <= #[trigger] m[k] < b.len())
    &&& (forall|k: int, l: int| 0 <= k < l < m.len() ==> m[k] < m[l])
    &&& (forall|k: int| 0 <= k < m.len() ==> a[k] == b[#[trigger] m[k]])
}

/// `a` is a subsequence of `b`: its elements appear in `b` in the same order.
pub open spec fn is_subsequence(a: Seq<Seq<char>>, b: Seq<Seq<char>>) -> bool {
    exists|m: Seq<int>| #[trigger] selects(m, a, b)
}

/// A mask keeps a subsequence.
pub proof fn lemma_mask_filter_is_subsequence(s: Seq<Seq<char>>, kept: Seq<bool>)
    ensures
        is_subsequence(mask_filter(s, kept), s),
    decreases s.len(),
{
    if s.len() == 0 {
        let m = Seq::<int>::empty();
        assert(selects(m, mask_filter(s, kept), s));
    } else {
        lemma_mask_filter_is_subsequence(s.drop_last(), kept.drop_last());
        let a0 = mask_filter(s.drop_last(), kept.drop_last());
        let m0 = choose|m: Seq<int>| #[trigger] selects(m, a0, s.drop_last());
        assert(forall|k: int| 0 <= k < m0.len() ==> s.drop_last()[#[trigger] m0[k]] == s[m0[k]]);
        if kept.len() > 0 && kept.last() {
            let m = m0.push(s.len() - 1);
            let a = mask_filter(s, kept);
            assert(a == a0.push(s.last()));
            assert(forall|k: int| 0 <= k < m.len() ==> 0 <= #[trigger] m[k] < s.len());
            assert forall|k: int, l: int| 0 <= k < l < m.len() implies m[k] < m[l] by {
                if l == m.len() - 1 {
                    assert(m[k] == m0[k]);
                    assert(m0[k] < s.drop_last().len());
                }
            }
            assert forall|k: int| 0 <= k < m.len() implies a[k] == s[#[trigger] m[k]] by {
                if k < m.len() - 1 {
                    assert(a[k] == a0[k]);
                    assert(m[k] == m0[k]);
                } else {
                    assert(m[k] == s.len() - 1);
                    assert(a[k] == s.last());
                }
            }
            assert(selects(m, a, s));
        } else {
            assert(forall|k: int| 0 <= k < m0.len() ==> 0 <= #[trigger] m0[k] < s.len());
            assert(selects(m0, mask_filter(s, kept), s));
        }
    }
}

/// A subsequence of a strictly sorted sequence is strictly sorted.
pub proof fn lemma_subsequence_sorted(a: Seq<Seq<char>>, b: Seq<Seq<char>>)
    requires
        is_subsequence(a, b),
        strictly_sorted(b),
    ensures
        strictly_sorted(a),
{
    let m = choose|m: Seq<int>| #[trigger] selects(m, a, b);
    assert forall|i: int, j: int| 0 <= i < j < a.len() implies lex_lt(a[i], a[j]) by {
        assert(m[i] < m[j]);
        assert(a[i] == b[m[i]]);
        assert(a[j] == b[m[j]]);
    }
}

proof fn lemma_insert_to_set(s: Seq<Seq<char>>, j: int, x: Seq<char>)
    requires
        0 <= j <= s.len(),
    ensures
        s.insert(j, x).to_set() == s.to_set().insert(x),
{
    let t = s.insert(j, x);
    s.insert_ensures(j, x);
    assert forall|y: Seq<char>| t.to_set().contains(y) implies s.to_set().insert(x).contains(
        y,
    ) by {
        let k = choose|k: int| 0 <= k < t.len() && t[k] == y;
        if k < j {
            assert(s[k] == y);
        } else if k > j {
            assert(t[(k - 1) + 1] == s[k - 1]);
        }
    }
    assert forall|y: Seq<char>| s.to_set().insert(x).contains(y) implies t.to_set().contains(
        y,
    ) by {
        if y == x {
            assert(t[j] == y);
        } else {
            let k = choose|k: int| 0 <= k < s.len() && s[k] == y;
            if k < j {
                assert(t[k] == y);
            } else {
                assert(t[k + 1] == y);
            }
        }
    }
    assert(t.to_set() =~= s.to_set().insert(x));
}

proof fn lemma_insert_sorted(s: Seq<Seq<char>>, j: int, x: Seq<char>)
    requires
        0 <= j <= s.len(),
        strictly_sorted(s),
        forall|k: int| 0 <= k < j ==> lex_lt(#[trigger] s[k], x),
        forall|k: int| j <= k < s.len() ==> lex_lt(x, #[trigger] s[k]),
    ensures
        strictly_sorted(s.insert(j, x)),
{
    let t = s.insert(j, x);
    s.insert_ensures(j, x);
    assert forall|p: int, q: int| 0 <= p < q < t.len() implies lex_lt(t[p], t[q]) by {
        if p < j {
            assert(t[p] == s[p]);
        } else if p > j {
            assert(t[(p - 1) + 1] == s[p - 1]);
        }
        if q < j {
            assert(t[q] == s[q]);
        } else if q > j {
            assert(t[(q - 1) + 1] == s[q - 1]);
        }
        if p < j && q < j {
        } else if p == j && q > j {
        } else if p < j && q == j {
        } else if p < j && q > j {
            lemma_lex_lt_transitive(s[p], x, s[q - 1]);
        } else {
        }
    }
}

/// An ordered set of normalized tag strings: sorted ascending, no duplicates.
pub struct TagList {
    tags: Vec<String>,
}

impl View for TagList {
    type V = Seq<Seq<char>>;

    closed spec fn view(&self) -> Seq<Seq<char>> {
        self.tags.deep_view()
    }
}

impl DeepView for TagList {
    type V = Seq<Seq<char>>;

    open spec fn deep_view(&self) -> Seq<Seq<char>> {
        self.view()
    }
}

impl TagList {
    /// The list is always strictly sorted, hence duplicate-free.
    #[verifier::type_invariant]
    spec fn inv(self) -> bool {
        strictly_sorted(self@)
    }

    /// Parses a raw comma-delimited tag field: a blank field yields the empty
    /// list; otherwise the pieces between commas are trimmed, their interior
    /// spaces become underscores, and the results are sorted and deduplicated.
    pub fn parse(s: &str) -> (r: TagList)
        ensures
            parse_post(s@, r@),
    {
        let t = trim_str(s);
        if t.unicode_len() == 0 {
            let r = TagList { tags: Vec::new() };
            proof {
                assert(r@ =~= Seq::<Seq<char>>::empty());
            }
            return r;
        }
        let pieces = split_commas_str(s);
        let mut tags: Vec<String> = Vec::new();
        let mut idx: usize = 0;
        proof {
            assert(tags.deep_view().to_set() =~= pieces_norm(s@).take(0).to_set());
        }
        while idx < pieces.len()
            invariant
                0 <= idx <= pieces.len(),
                pieces.deep_view() == split_commas(s@),
                pieces.len() == pieces_norm(s@).len(),
                strictly_sorted(tags.deep_view()),
                tags.deep_view().to_set() == pieces_norm(s@).take(idx as int).to_set(),
            decreases pieces.len() - idx,
        {
            let x = normalize_piece(pieces[idx].as_str());
            proof {
                assert(pieces.deep_view()[idx as int] == pieces@[idx as int]@);
                assert(x@ == pieces_norm(s@)[idx as int]);
            }
            let mut j: usize = 0;
            while j < tags.len() && str_lt(tags[j].as_str(), x.as_str())
                invariant
                    0 <= j <= tags.len(),
                    forall|k: int| 0 <= k < j ==> lex_lt(#[trigger] tags.deep_view()[k], x@),
                decreases tags.len() - j,
            {
                proof {
                    assert(tags.deep_view()[j as int] == tags@[j as int]@);
                }
                j += 1;
            }
            let ghost dv = tags.deep_view();
            let dup = j < tags.len() && str_eq(tags[j].as_str(), x.as_str());
            proof {
                assert(j < tags.len() ==> tags.deep_view()[j as int] == tags@[j as int]@);
            }
            if !dup {
                proof {
                    assert forall|k: int| j <= k < dv.len() implies lex_lt(x@, #[trigger] dv[k]) by {
                        lemma_lex_lt_trichotomy(dv[j as int], x@);
                        if k > j {
                            lemma_lex_lt_transitive(x@, dv[j as int], dv[k]);
                        }
                    }
                    lemma_insert_sorted(dv, j as int, x@);
                    lemma_insert_to_set(dv, j as int, x@);
                }
                tags.insert(j, x);
                proof {
                    assert(tags.deep_view() =~= dv.insert(j as int, x@));
                }
            } else {
                proof {
                    assert(dv.to_set().contains(x@));
                    assert(dv.to_set() =~= dv.to_set().insert(x@));
                }
            }
            proof {
                let pn = pieces_norm(s@);
                assert(pn.take(idx + 1) =~= pn.take(idx as int) + seq![pn[idx as int]]);
                Seq::lemma_to_set_insert_commutes(pn.take(idx as int), pn[idx as int]);
                assert(tags.deep_view().to_set() =~= pn.take(idx + 1).to_set());
            }
            idx += 1;
        }
        proof {
            assert(pieces_norm(s@).take(pieces.len() as int) =~= pieces_norm(s@));
        }
        let r = TagList { tags };
        r
    }

    /// Renders the list as its tags joined by single spaces; the empty list
    /// renders as the empty string.
    pub fn render(&self) -> (r: String)
        ensures
            r@ == render_spec(self@),
    {
        join_spaces(&self.tags)
    }

    /// True exactly when the list has no tags.
    pub fn is_empty(&self) -> (r: bool)
        ensures
            r == (self@.len() == 0),
    {
        proof {
            assert(self.tags.deep_view().len() == self.tags@.len());
        }
        self.tags.is_empty()
    }

    /// True exactly when some tag of the list equals the given text.
    pub fn contains(&self, tag: &str) -> (r: bool)
        ensures
            r == self@.contains(tag@),
    {
        let mut i: usize = 0;
        while i < self.tags.len()
            invariant
                0 <= i <= self.tags.len(),
                forall|k: int| 0 <= k < i ==> #[trigger] self@[k] != tag@,
            decreases self.tags.len() - i,
        {
            proof {
                assert(self@[i as int] == self.tags@[i as int]@);
            }
            if str_eq(self.tags[i].as_str(), tag) {
                proof {
                    assert(self@[i as int] == tag@);
                }
                return true;
            }
            i += 1;
        }
        proof {
            assert(!self@.contains(tag@));
        }
        false
    }

    /// Keeps only the tags the predicate approves, in their original order.
    /// The result is the subsequence of the list selected by the predicate's
    /// answers, so it is again sorted and duplicate-free.
    pub fn filter<F: Fn(&str) -> bool>(&self, f: F) -> (r: Self)
        requires
            forall|t: &str| #[trigger] call_requires(f, (t,)),
        ensures
            strictly_sorted(r@),
            is_subsequence(r@, self@),
            exists|kept: Seq<bool>| #[trigger] filter_witness(f, self@, r@, kept),
    {
        let mut out: Vec<String> = Vec::new();
        let ghost mut kept: Seq<bool> = Seq::empty();
        let mut i: usize = 0;
        proof {
            assert(out.deep_view() =~= mask_filter(self@.take(0), kept));
        }
        while i < self.tags.len()
            invariant
                0 <= i <= self.tags.len(),
                self@.len() == self.tags.len(),
                kept.len() == i,
                out.deep_view() == mask_filter(self@.take(i as int), kept),
                forall|t: &str| #[trigger] call_requires(f, (t,)),
                forall|k: int| 0 <= k < i ==> #[trigger] approved(f, self@[k], kept[k]),
            decreases self.tags.len() - i,
        {
            let ghost old_kept = kept;
            let ghost old_dv = out.deep_view();
            let arg = self.tags[i].as_str();
            let b = f(arg);
            proof {
                assert(arg@ == self@[i as int]);
                kept = kept.push(b);
            }
            if b {
                out.push(arg.to_owned());
            }
            proof {
                let t1 = self@.take(i + 1);
                assert(t1.drop_last() =~= self@.take(i as int));
                assert(kept.drop_last() =~= old_kept);
                assert(t1.last() == self@[i as int]);
                if b {
                    assert(out.deep_view() =~= old_dv.push(self@[i as int]));
                }
                assert(out.deep_view() == mask_filter(t1, kept));
                assert forall|k: int| 0 <= k < i + 1 implies #[trigger] approved(
                    f,
                    self@[k],
                    kept[k],
                ) by {
                    if k == i {
                        assert(arg@ == self@[k] && call_ensures(f, (arg,), kept[k]));
                    } else {
                        assert(approved(f, self@[k], old_kept[k]));
                    }
                }
            }
            i += 1;
        }
        proof {
            assert(self@.take(self.tags.len() as int) =~= self@);
            lemma_mask_filter_is_subsequence(self@, kept);
            use_type_invariant(self);
            lemma_subsequence_sorted(mask_filter(self@, kept), self@);
            assert(filter_witness(f, self@, out.deep_view(), kept));
        }
        let r = TagList { tags: out };
        r
    }
}

} // verus!
