//! Character-level text operations behind tag parsing and note construction:
//! whitespace trimming, space-to-underscore replacement, splitting on commas,
//! joining with spaces, and removal of the zero-width-space marker.

use vstd::prelude::*;
use vstd::string::StrSliceExecFns;
use vstd::string::StringExecFns;

verus! {

/// A character with the Unicode `White_Space` property.
pub open spec fn is_ws(c: char) -> bool {
    let u = c as u32;
    u == 0x9 || u == 0xA || u == 0xB || u == 0xC || u == 0xD || u == 0x20 || u == 0x85
        || u == 0xA0 || u == 0x1680 || (0x2000 <= u && u <= 0x200A) || u == 0x2028 || u == 0x2029
        || u == 0x202F || u == 0x205F || u == 0x3000
}

/// Decides [`is_ws`].
pub fn is_ws_char(c: char) -> (b: bool)
    ensures
        b == is_ws(c),
{
    let u: u32 = c as u32;
    u == 0x9 || u == 0xA || u == 0xB || u == 0xC || u == 0xD || u == 0x20 || u == 0x85
        || u == 0xA0 || u == 0x1680 || (0x2000 <= u && u <= 0x200A) || u == 0x2028 || u == 0x2029
        || u == 0x202F || u == 0x205F || u == 0x3000
}

/// The zero-width-space marker character the source tool plants in headwords.
pub open spec fn is_zwsp(c: char) -> bool {
    c == '\u{200b}'
}

/// The sequence without its leading whitespace.
pub open spec fn trim_start_spec(s: Seq<char>) -> Seq<char>
    decreases s.len(),
{
    if s.len() > 0 && is_ws(s[0]) {
        trim_start_spec(s.drop_first())
    } else {
        s
    }
}

/// The sequence without its trailing whitespace.
pub open spec fn trim_end_spec(s: Seq<char>) -> Seq<char>
    decreases s.len(),
{
    if s.len() > 0 && is_ws(s.last()) {
        trim_end_spec(s.drop_last())
    } else {
        s
    }
}

/// The sequence without leading and trailing whitespace.
pub open spec fn trim_spec(s: Seq<char>) -> Seq<char> {
    trim_end_spec(trim_start_spec(s))
}

proof fn lemma_trim_start_subrange(s: Seq<char>, i: int)
    requires
        0 <= i <= s.len(),
        forall|k: int| 0 <= k < i ==> is_ws(s[k]),
        i == s.len() || !is_ws(s[i]),
    ensures
        trim_start_spec(s) == s.subrange(i, s.len() as int),
    decreases i,
{
    if i == 0 {
        assert(s.subrange(0, s.len() as int) =~= s);
    } else {
        assert(is_ws(s[0]));
        lemma_trim_start_subrange(s.drop_first(), i - 1);
        assert(s.drop_first().subrange(i - 1, s.drop_first().len() as int) =~= s.subrange(
            i,
            s.len() as int,
        ));
    }
}

proof fn lemma_trim_end_subrange(s: Seq<char>, j: int)
    requires
        0 <= j <= s.len(),
        forall|k: int| j <= k < s.len() ==> is_ws(s[k]),
        j == 0 || !is_ws(s[j - 1]),
    ensures
        trim_end_spec(s) == s.subrange(0, j),
    decreases s.len() - j,
{
    if j == s.len() {
        if s.len() > 0 && is_ws(s.last()) {
            assert(!is_ws(s[j - 1]));
            assert(false);
        }
        assert(s.subrange(0, j) =~= s);
    } else {
        assert(is_ws(s.last()));
        lemma_trim_end_subrange(s.drop_last(), j);
        assert(s.drop_last().subrange(0, j) =~= s.subrange(0, j));
    }
}

/// Trimming takes a suffix: what leading whitespace leaves behind.
pub proof fn lemma_trim_start_suffix(s: Seq<char>)
    ensures
        trim_start_spec(s).len() <= s.len(),
        trim_start_spec(s) == s.skip(s.len() - trim_start_spec(s).len()),
    decreases s.len(),
{
    if s.len() > 0 && is_ws(s[0]) {
        lemma_trim_start_suffix(s.drop_first());
        let l = trim_start_spec(s).len() as int;
        assert(s.drop_first().skip(s.drop_first().len() - l) =~= s.skip(s.len() - l));
    } else {
        assert(s.skip(0) =~= s);
    }
}

/// Trimming takes a prefix: what trailing whitespace leaves behind.
pub proof fn lemma_trim_end_prefix(s: Seq<char>)
    ensures
        trim_end_spec(s).len() <= s.len(),
        trim_end_spec(s) == s.take(trim_end_spec(s).len() as int),
    decreases s.len(),
{
    if s.len() > 0 && is_ws(s.last()) {
        lemma_trim_end_prefix(s.drop_last());
        let l = trim_end_spec(s).len() as int;
        assert(s.drop_last().take(l) =~= s.take(l));
    } else {
        assert(s.take(s.len() as int) =~= s);
    }
}

proof fn lemma_trim_start_first(s: Seq<char>)
    ensures
        trim_start_spec(s).len() > 0 ==> !is_ws(trim_start_spec(s)[0]),
    decreases s.len(),
{
    if s.len() > 0 && is_ws(s[0]) {
        lemma_trim_start_first(s.drop_first());
    }
}

proof fn lemma_trim_end_last(s: Seq<char>)
    ensures
        trim_end_spec(s).len() > 0 ==> !is_ws(trim_end_spec(s).last()),
    decreases s.len(),
{
    if s.len() > 0 && is_ws(s.last()) {
        lemma_trim_end_last(s.drop_last());
    }
}

/// A nonempty trimmed text neither begins nor ends with whitespace.
pub proof fn lemma_trim_ends(s: Seq<char>)
    ensures
        trim_spec(s).len() > 0 ==> !is_ws(trim_spec(s)[0]) && !is_ws(trim_spec(s).last()),
{
    let t = trim_start_spec(s);
    lemma_trim_start_first(s);
    lemma_trim_end_last(t);
    lemma_trim_end_prefix(t);
    if trim_spec(s).len() > 0 {
        assert(trim_spec(s)[0] == t.take(trim_end_spec(t).len() as int)[0]);
    }
}

/// A text that neither begins nor ends with whitespace is its own trim.
pub proof fn lemma_trim_fixed(s: Seq<char>)
    requires
        s.len() > 0 ==> !is_ws(s[0]) && !is_ws(s.last()),
    ensures
        trim_spec(s) == s,
{
    assert(trim_start_spec(s) == s);
    assert(trim_end_spec(s) == s);
}

/// The characters of a trimmed text all occur in the original, at an offset.
pub proof fn lemma_trim_chars(s: Seq<char>)
    ensures
        trim_spec(s).len() <= s.len(),
        exists|a: int|
            {
                &&& 0 <= a
                &&& a + trim_spec(s).len() <= s.len()
                &&& #[trigger] trim_within(s, a)
            },
{
    let t = trim_start_spec(s);
    lemma_trim_start_suffix(s);
    lemma_trim_end_prefix(t);
    let a = s.len() - t.len();
    assert forall|j: int| 0 <= j < trim_spec(s).len() implies trim_spec(s)[j] == s[a + j] by {
        assert(trim_spec(s)[j] == t.take(trim_end_spec(t).len() as int)[j]);
        assert(t[j] == s.skip(a)[j]);
    }
    assert(trim_within(s, a));
}

/// The trimmed text read at offset `a` inside the original text.
pub open spec fn trim_within(s: Seq<char>, a: int) -> bool {
    forall|j: int| 0 <= j < trim_spec(s).len() ==> #[trigger] trim_spec(s)[j] == s[a + j]
}

/// Removes leading and trailing whitespace from a string.
pub fn trim_str<'a>(s: &'a str) -> (r: &'a str)
    ensures
        r@ == trim_spec(s@),
{
    let len = s.unicode_len();
    let mut i: usize = 0;
    while i < len && is_ws_char(s.get_char(i))
        invariant
            0 <= i <= len,
            len == s@.len(),
            forall|k: int| 0 <= k < i ==> is_ws(s@[k]),
        decreases len - i,
    {
        i += 1;
    }
    let mut j: usize = len;
    while j > i && is_ws_char(s.get_char(j - 1))
        invariant
            i <= j <= len,
            len == s@.len(),
            forall|k: int| j <= k < len ==> is_ws(s@[k]),
        decreases j,
    {
        j -= 1;
    }
    proof {
        lemma_trim_start_subrange(s@, i as int);
        let t = s@.subrange(i as int, len as int);
        lemma_trim_end_subrange(t, j - i);
        assert(t.subrange(0, j - i) =~= s@.subrange(i as int, j as int));
    }
    s.substring_char(i, j)
}

/// Interior spaces of a trimmed tag become underscores.
pub open spec fn space_to_underscore(c: char) -> char {
    if c == ' ' {
        '_'
    } else {
        c
    }
}

/// One raw piece of a comma-separated tag field, normalized: trimmed, with
/// every remaining space replaced by an underscore.
pub open spec fn normalize_tag(s: Seq<char>) -> Seq<char> {
    trim_spec(s).map_values(|c: char| space_to_underscore(c))
}

/// Normalizes one raw piece of the tag field.
pub fn normalize_piece(s: &str) -> (r: String)
    ensures
        r@ == normalize_tag(s@),
{
    let t = trim_str(s);
    let len = t.unicode_len();
    let mut r = String::new();
    let mut i: usize = 0;
    while i < len
        invariant
            0 <= i <= len,
            len == t@.len(),
            t@ == trim_spec(s@),
            r@ == t@.subrange(0, i as int).map_values(|c: char| space_to_underscore(c)),
        decreases len - i,
    {
        let c = t.get_char(i);
        if c == ' ' {
            r.append("_");
            proof {
                reveal_strlit("_");
            }
        } else {
            r.append(t.substring_char(i, i + 1));
        }
        proof {
            assert(r@ =~= t@.subrange(0, i + 1).map_values(|c: char| space_to_underscore(c)));
        }
        i += 1;
    }
    proof {
        assert(t@.subrange(0, len as int) =~= t@);
        assert(t@.map_values(|c: char| space_to_underscore(c)) =~= normalize_tag(s@));
    }
    r
}

/// The pieces of `s` between commas, scanning from position `i` with the
/// current piece having begun at `start`.
pub open spec fn split_commas_from(s: Seq<char>, start: int, i: int) -> Seq<Seq<char>>
    decreases s.len() - i,
{
    if i < 0 || i >= s.len() {
        seq![s.subrange(start, s.len() as int)]
    } else if s[i] == ',' {
        seq![s.subrange(start, i)] + split_commas_from(s, i + 1, i + 1)
    } else {
        split_commas_from(s, start, i + 1)
    }
}

/// The pieces of `s` between commas; a sequence without commas is one piece.
pub open spec fn split_commas(s: Seq<char>) -> Seq<Seq<char>> {
    split_commas_from(s, 0, 0)
}

proof fn lemma_split_from_no_comma(s: Seq<char>, start: int, i: int)
    requires
        0 <= start <= i <= s.len(),
        forall|k: int| start <= k < i ==> s[k] != ',',
    ensures
        forall|k: int, j: int|
            0 <= k < split_commas_from(s, start, i).len() && 0 <= j < split_commas_from(
                s,
                start,
                i,
            )[k].len() ==> #[trigger] split_commas_from(s, start, i)[k][j] != ',',
    decreases s.len() - i,
{
    let r = split_commas_from(s, start, i);
    if i >= s.len() {
        assert forall|k: int, j: int|
            0 <= k < r.len() && 0 <= j < r[k].len() implies #[trigger] r[k][j] != ',' by {
            assert(r[k] == s.subrange(start, s.len() as int));
            assert(r[k][j] == s[start + j]);
        }
    } else if s[i] == ',' {
        lemma_split_from_no_comma(s, i + 1, i + 1);
        let rest = split_commas_from(s, i + 1, i + 1);
        assert forall|k: int, j: int|
            0 <= k < r.len() && 0 <= j < r[k].len() implies #[trigger] r[k][j] != ',' by {
            if k == 0 {
                assert(r[k] == s.subrange(start, i));
                assert(r[k][j] == s[start + j]);
            } else {
                assert(r[k] == rest[k - 1]);
                assert(rest[k - 1][j] != ',');
            }
        }
    } else {
        lemma_split_from_no_comma(s, start, i + 1);
        assert(r == split_commas_from(s, start, i + 1));
    }
}

/// No piece of the comma-split contains a comma.
pub proof fn lemma_split_no_comma(s: Seq<char>)
    ensures
        forall|k: int, j: int|
            0 <= k < split_commas(s).len() && 0 <= j < split_commas(s)[k].len()
                ==> #[trigger] split_commas(s)[k][j] != ',',
{
    lemma_split_from_no_comma(s, 0, 0);
}

proof fn lemma_split_from_whole(s: Seq<char>, start: int, i: int)
    requires
        0 <= start <= i <= s.len(),
        forall|k: int| i <= k < s.len() ==> s[k] != ',',
    ensures
        split_commas_from(s, start, i) == seq![s.subrange(start, s.len() as int)],
    decreases s.len() - i,
{
    if i < s.len() {
        lemma_split_from_whole(s, start, i + 1);
    }
}

/// A text without commas splits into itself as the single piece.
pub proof fn lemma_split_whole(s: Seq<char>)
    requires
        forall|k: int| 0 <= k < s.len() ==> s[k] != ',',
    ensures
        split_commas(s) == seq![s],
{
    lemma_split_from_whole(s, 0, 0);
    assert(s.subrange(0, s.len() as int) =~= s);
}

/// Splits a string into its comma-separated pieces.
pub fn split_commas_str(s: &str) -> (r: Vec<String>)
    ensures
        r.deep_view() == split_commas(s@),
{
    let len = s.unicode_len();
    let mut r: Vec<String> = Vec::new();
    let mut start: usize = 0;
    let mut i: usize = 0;
    while i < len
        invariant
            0 <= start <= i <= len,
            len == s@.len(),
            split_commas(s@) == r.deep_view() + split_commas_from(s@, start as int, i as int),
        decreases len - i,
    {
        if s.get_char(i) == ',' {
            let piece = s.substring_char(start, i);
            let ghost old_dv = r.deep_view();
            r.push(piece.to_owned());
            proof {
                assert(r.deep_view() =~= old_dv.push(s@.subrange(start as int, i as int)));
                assert(old_dv.push(s@.subrange(start as int, i as int)) =~= old_dv + seq![
                    s@.subrange(start as int, i as int),
                ]);
                assert((old_dv + seq![s@.subrange(start as int, i as int)]) + split_commas_from(
                    s@,
                    i + 1,
                    i + 1,
                ) =~= old_dv + (seq![s@.subrange(start as int, i as int)] + split_commas_from(
                    s@,
                    i + 1,
                    i + 1,
                )));
            }
            start = i + 1;
        }
        i += 1;
    }
    let piece = s.substring_char(start, len);
    let ghost old_dv = r.deep_view();
    r.push(piece.to_owned());
    proof {
        assert(r.deep_view() =~= old_dv.push(s@.subrange(start as int, len as int)));
        assert(old_dv.push(s@.subrange(start as int, len as int)) =~= old_dv + seq![
            s@.subrange(start as int, len as int),
        ]);
    }
    r
}

/// The tag texts joined with a single space, from position `i` on.
pub open spec fn render_from(tags: Seq<Seq<char>>, i: int) -> Seq<char>
    decreases tags.len() - i,
{
    if i < 0 || i >= tags.len() {
        Seq::empty()
    } else if i == tags.len() - 1 {
        tags[i]
    } else {
        tags[i] + seq![' '] + render_from(tags, i + 1)
    }
}

/// The tag texts joined with a single space; no text for an empty list.
pub open spec fn render_spec(tags: Seq<Seq<char>>) -> Seq<char> {
    render_from(tags, 0)
}

/// Joins the strings with a single space separator.
pub fn join_spaces(v: &Vec<String>) -> (r: String)
    ensures
        r@ == render_spec(v.deep_view()),
{
    let mut r = String::new();
    let mut i: usize = 0;
    proof {
        assert(Seq::<char>::empty() + render_from(v.deep_view(), 0) =~= render_from(
            v.deep_view(),
            0,
        ));
    }
    while i < v.len()
        invariant
            0 <= i <= v.len(),
            render_spec(v.deep_view()) == r@ + render_from(v.deep_view(), i as int),
        decreases v.len() - i,
    {
        let ghost pre = r@;
        r.append(v[i].as_str());
        proof {
            assert(v.deep_view()[i as int] == v@[i as int]@);
        }
        if i + 1 < v.len() {
            r.append(" ");
            proof {
                reveal_strlit(" ");
                assert(" "@ =~= seq![' ']);
                assert(r@ =~= pre + (v.deep_view()[i as int] + seq![' ']));
                assert(pre + (v.deep_view()[i as int] + seq![' ']) + render_from(
                    v.deep_view(),
                    i + 1,
                ) =~= pre + render_from(v.deep_view(), i as int));
            }
        } else {
            proof {
                assert(i == v.deep_view().len() - 1);
                assert(render_from(v.deep_view(), i as int) == v.deep_view()[i as int]);
                assert(r@ + render_from(v.deep_view(), i + 1) =~= r@);
            }
        }
        i += 1;
    }
    proof {
        assert(r@ + render_from(v.deep_view(), i as int) =~= r@);
    }
    r
}

/// The headword text with every zero-width-space marker removed.
pub open spec fn strip_zwsp_spec(s: Seq<char>) -> Seq<char> {
    s.filter(|c: char| !is_zwsp(c))
}

/// Extending the text by one character keeps it in the stripped form, unless
/// the character is the marker, which vanishes.
pub proof fn lemma_strip_zwsp_push(s: Seq<char>, c: char)
    ensures
        strip_zwsp_spec(s.push(c)) == if !is_zwsp(c) {
            strip_zwsp_spec(s).push(c)
        } else {
            strip_zwsp_spec(s)
        },
{
    reveal(Seq::filter);
    assert(s.push(c).drop_last() =~= s);
    assert(s.push(c).last() == c);
    assert(strip_zwsp_spec(s.push(c)) == if !is_zwsp(c) {
        strip_zwsp_spec(s).push(c)
    } else {
        strip_zwsp_spec(s)
    });
}

/// Removes every zero-width-space marker from a string.
pub fn strip_zwsp(s: &str) -> (r: String)
    ensures
        r@ == strip_zwsp_spec(s@),
{
    let len = s.unicode_len();
    let mut r = String::new();
    let mut i: usize = 0;
    proof {
        assert(s@.take(0) =~= Seq::<char>::empty());
        assert(strip_zwsp_spec(Seq::<char>::empty()) =~= Seq::<char>::empty());
    }
    while i < len
        invariant
            0 <= i <= len,
            len == s@.len(),
            r@ == strip_zwsp_spec(s@.take(i as int)),
        decreases len - i,
    {
        let c = s.get_char(i);
        proof {
            assert(s@.take(i + 1) =~= s@.take(i as int).push(s@[i as int]));
            lemma_strip_zwsp_push(s@.take(i as int), s@[i as int]);
        }
        if c != '\u{200b}' {
            r.append(s.substring_char(i, i + 1));
            proof {
                assert(r@ =~= strip_zwsp_spec(s@.take(i + 1)));
            }
        }
        i += 1;
    }
    proof {
        assert(s@.take(len as int) =~= s@);
    }
    r
}

} // verus!
