//! The record converter: decides for one source record whether it yields a
//! flashcard note, and builds the note's fields.

use vstd::prelude::*;
use vstd::string::StrSliceExecFns;
use vstd::string::StringExecFns;
use crate::order::str_eq;
use crate::tags::{TagList, mask_filter, filter_witness};
use crate::text::{trim_spec, strip_zwsp_spec, render_spec, trim_str, strip_zwsp};

verus! {

/// A bookkeeping label consumed by the conversion rules, never shown in the
/// output.
pub open spec fn is_control_tag(t: Seq<char>) -> bool {
    t == "loan"@ || t == "anki"@ || t == "generated"@
}

/// The source tags with the bookkeeping labels removed.
pub open spec fn content_tags(tags: Seq<Seq<char>>) -> Seq<Seq<char>> {
    tags.filter(|t: Seq<char>| !is_control_tag(t))
}

proof fn lemma_mask_filter_content(s: Seq<Seq<char>>, kept: Seq<bool>)
    requires
        kept.len() == s.len(),
        forall|k: int| 0 <= k < s.len() ==> kept[k] == !is_control_tag(#[trigger] s[k]),
    ensures
        mask_filter(s, kept) == content_tags(s),
    decreases s.len(),
{
    reveal(Seq::filter);
    if s.len() > 0 {
        assert forall|k: int| 0 <= k < s.drop_last().len() implies kept.drop_last()[k]
            == !is_control_tag(#[trigger] s.drop_last()[k]) by {
            assert(s.drop_last()[k] == s[k]);
            assert(kept.drop_last()[k] == kept[k]);
        }
        lemma_mask_filter_content(s.drop_last(), kept.drop_last());
    }
}

proof fn lemma_content_tags_pred(tags: Seq<Seq<char>>, i: int)
    requires
        0 <= i < content_tags(tags).len(),
    ensures
        !is_control_tag(content_tags(tags)[i]),
    decreases tags.len(),
{
    reveal(Seq::filter);
    if tags.len() > 0 {
        let rest = content_tags(tags.drop_last());
        if i < rest.len() {
            lemma_content_tags_pred(tags.drop_last(), i);
        }
    }
}

/// One vocabulary entry of the source export, as the converter sees it.
pub struct LuteTermV {
    pub term: Seq<char>,
    pub parent: Option<Seq<char>>,
    pub translation: Seq<char>,
    pub language: Seq<char>,
    pub pronunciation: Option<Seq<char>>,
    pub tags: Seq<Seq<char>>,
}

/// One vocabulary entry of the source export.
pub struct LuteTerm {
    pub term: String,
    pub parent: Option<String>,
    pub translation: String,
    pub language: String,
    pub pronunciation: Option<String>,
    pub tags: TagList,
}

impl View for LuteTerm {
    type V = LuteTermV;

    open spec fn view(&self) -> LuteTermV {
        LuteTermV {
            term: self.term@,
            parent: match self.parent {
                Option::Some(p) => Option::Some(p@),
                Option::None => Option::None,
            },
            translation: self.translation@,
            language: self.language@,
            pronunciation: match self.pronunciation {
                Option::Some(p) => Option::Some(p@),
                Option::None => Option::None,
            },
            tags: self.tags@,
        }
    }
}

impl DeepView for LuteTerm {
    type V = LuteTermV;

    open spec fn deep_view(&self) -> LuteTermV {
        self.view()
    }
}

/// One output flashcard note, as the contracts see it.
pub struct AnkiNoteV {
    pub front: Seq<char>,
    pub back: Seq<char>,
    pub tags: Seq<Seq<char>>,
    pub deck: Seq<char>,
}

/// One output flashcard note.
pub struct AnkiNote {
    pub front: String,
    pub back: String,
    pub tags: TagList,
    pub deck: String,
}

impl View for AnkiNote {
    type V = AnkiNoteV;

    open spec fn view(&self) -> AnkiNoteV {
        AnkiNoteV { front: self.front@, back: self.back@, tags: self.tags@, deck: self.deck@ }
    }
}

impl DeepView for AnkiNote {
    type V = AnkiNoteV;

    open spec fn deep_view(&self) -> AnkiNoteV {
        self.view()
    }
}

/// The ordered exclusion rules. A record is dropped when it is derived (has a
/// parent) or tool-generated without the explicit opt-in tag; when it carries
/// the explicit opt-out tag, which wins even over the opt-in; or when its
/// translation is blank.
pub open spec fn is_dropped(t: LuteTermV) -> bool {
    ||| ((t.parent is Some || t.tags.contains("generated"@)) && !t.tags.contains("anki"@))
    ||| t.tags.contains("noanki"@)
    ||| trim_spec(t.translation).len() == 0
}

/// The note's front: the headword without zero-width-space markers, then, when
/// a pronunciation is present, a blank line and the annotated pronunciation.
pub open spec fn front_text(t: LuteTermV) -> Seq<char> {
    let base = strip_zwsp_spec(t.term);
    match t.pronunciation {
        Option::Some(p) => base + "\n\npronunciation: "@ + p,
        Option::None => base,
    }
}

/// The note's back: the translation as given, then, when any content tag
/// remains, a blank line and the annotated rendered tags.
pub open spec fn back_text(t: LuteTermV) -> Seq<char> {
    let tags = content_tags(t.tags);
    if tags.len() > 0 {
        t.translation + "\n\ntags: "@ + render_spec(tags)
    } else {
        t.translation
    }
}

/// What converting one record yields: nothing when a drop rule fires, else the
/// note with its four constructed fields.
pub open spec fn convert_spec(t: LuteTermV) -> Option<AnkiNoteV> {
    if is_dropped(t) {
        Option::None
    } else {
        Option::Some(
            AnkiNoteV {
                front: front_text(t),
                back: back_text(t),
                tags: content_tags(t.tags),
                deck: t.language,
            },
        )
    }
}

/// A bookkeeping label never stands among a produced note's tags, and so never
/// reaches the rendered output.
pub proof fn lemma_output_tags_free_of_control(t: LuteTermV, n: AnkiNoteV)
    requires
        convert_spec(t) == Option::Some(n),
    ensures
        forall|i: int| 0 <= i < n.tags.len() ==> !is_control_tag(#[trigger] n.tags[i]),
{
    assert forall|i: int| 0 <= i < n.tags.len() implies !is_control_tag(#[trigger] n.tags[i]) by {
        lemma_content_tags_pred(t.tags, i);
    }
}

/// Converts one source record into at most one flashcard note, exactly as
/// [`convert_spec`] describes: total, and never failing.
pub fn convert(lt: LuteTerm) -> (r: Option<AnkiNote>)
    ensures
        r is Some <==> !is_dropped(lt@),
        match r {
            Option::Some(note) => convert_spec(lt@) == Option::Some(note@),
            Option::None => convert_spec(lt@) is None,
        },
{
    let ghost v = lt@;
    if (lt.parent.is_some() || lt.tags.contains("generated")) && !lt.tags.contains("anki") {
        return Option::None;
    }
    if lt.tags.contains("noanki") {
        return Option::None;
    }
    if trim_str(lt.translation.as_str()).unicode_len() == 0 {
        return Option::None;
    }
    let f = |t: &str| -> (b: bool)
        ensures
            b == !is_control_tag(t@),
        { !(str_eq(t, "loan") || str_eq(t, "anki") || str_eq(t, "generated")) };
    let tags = lt.tags.filter(f);
    proof {
        let kept = choose|kept: Seq<bool>| #[trigger] filter_witness(f, v.tags, tags@, kept);
        assert forall|k: int| 0 <= k < v.tags.len() implies kept[k] == !is_control_tag(
            #[trigger] v.tags[k],
        ) by {
            assert(crate::tags::approved(f, v.tags[k], kept[k]));
            let t = choose|t: &str| t@ == v.tags[k] && #[trigger] call_ensures(f, (t,), kept[k]);
        }
        lemma_mask_filter_content(v.tags, kept);
        assert(tags@ == content_tags(v.tags));
    }
    let mut front = strip_zwsp(lt.term.as_str());
    match lt.pronunciation {
        Option::Some(p) => {
            front.append("\n\npronunciation: ");
            front.append(p.as_str());
            proof {
                assert(front@ =~= front_text(v));
            }
        },
        Option::None => {},
    }
    let mut back = lt.translation;
    if !tags.is_empty() {
        let rendered = tags.render();
        back.append("\n\ntags: ");
        back.append(rendered.as_str());
        proof {
            assert(back@ =~= back_text(v));
        }
    }
    let note = AnkiNote { front, back, tags, deck: lt.language };
    proof {
        assert(note@.front == front_text(v));
        assert(note@.back == back_text(v));
        assert(note@.tags == content_tags(v.tags));
        assert(note@.deck == v.language);
        assert(convert_spec(v) == Option::Some(note@));
    }
    Option::Some(note)
}

} // verus!
