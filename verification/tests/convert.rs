use lute_to_anki::convert::{convert, LuteTerm};
use lute_to_anki::tags::TagList;

fn term(
    term: &str,
    parent: Option<&str>,
    translation: &str,
    language: &str,
    pronunciation: Option<&str>,
    tags: &str,
) -> LuteTerm {
    LuteTerm {
        term: term.to_string(),
        parent: parent.map(|p| p.to_string()),
        translation: translation.to_string(),
        language: language.to_string(),
        pronunciation: pronunciation.map(|p| p.to_string()),
        tags: TagList::parse(tags),
    }
}

#[test]
fn drops_record_with_parent() {
    let r = convert(term("w", Some("x"), "t", "L", None, ""));
    assert!(r.is_none());
}

#[test]
fn drops_generated_record() {
    let r = convert(term("w", None, "t", "L", None, "generated"));
    assert!(r.is_none());
}

#[test]
fn anki_tag_overrides_parent_drop() {
    let r = convert(term("w", Some("x"), "t", "L", None, "anki"));
    assert!(r.is_some());
}

#[test]
fn anki_tag_overrides_generated_drop() {
    let r = convert(term("w", None, "t", "L", None, "generated, anki"));
    assert!(r.is_some());
}

#[test]
fn noanki_wins_over_anki() {
    let r = convert(term("w", None, "t", "L", None, "anki, noanki"));
    assert!(r.is_none());
}

#[test]
fn drops_noanki_alone() {
    let r = convert(term("w", None, "t", "L", None, "noanki"));
    assert!(r.is_none());
}

#[test]
fn drops_blank_translation() {
    let r = convert(term("w", None, "   ", "L", None, ""));
    assert!(r.is_none());
}

#[test]
fn builds_all_fields() {
    let r = convert(term(
        "caf\u{200b}e",
        None,
        "coffee",
        "French",
        Some("kaf-ay"),
        "loan, food",
    ))
    .unwrap();
    assert_eq!(r.front, "cafe\n\npronunciation: kaf-ay");
    assert_eq!(r.back, "coffee\n\ntags: food");
    assert_eq!(r.tags.render(), "food");
    assert_eq!(r.deck, "French");
}

#[test]
fn plain_record_keeps_bare_fields() {
    let r = convert(term("word", None, "meaning", "German", None, "")).unwrap();
    assert_eq!(r.front, "word");
    assert_eq!(r.back, "meaning");
    assert!(r.tags.is_empty());
    assert_eq!(r.deck, "German");
}

#[test]
fn empty_pronunciation_is_still_annotated() {
    let r = convert(term("w", None, "t", "L", Some(""), "")).unwrap();
    assert_eq!(r.front, "w\n\npronunciation: ");
}

#[test]
fn control_tags_never_reach_output() {
    let r = convert(term("w", None, "t", "L", None, "anki, generated, loan, zoo")).unwrap();
    assert_eq!(r.tags.render(), "zoo");
    assert_eq!(r.back, "t\n\ntags: zoo");
}

#[test]
fn untrimmed_translation_is_used_verbatim() {
    let r = convert(term("w", None, " t ", "L", None, "")).unwrap();
    assert_eq!(r.back, " t ");
}
