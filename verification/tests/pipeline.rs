use lute_to_anki::convert::LuteTerm;
use lute_to_anki::pipeline::{convert_all, preamble_lines};
use lute_to_anki::tags::TagList;

fn term(headword: &str, parent: Option<&str>, translation: &str, tags: &str) -> LuteTerm {
    LuteTerm {
        term: headword.to_string(),
        parent: parent.map(|p| p.to_string()),
        translation: translation.to_string(),
        language: "L".to_string(),
        pronunciation: None,
        tags: TagList::parse(tags),
    }
}

#[test]
fn preamble_is_the_six_fixed_lines() {
    let lines = preamble_lines();
    assert_eq!(
        lines,
        vec![
            "#separator: Comma",
            "#html: false",
            "#columns: Front,Back,Tags,Deck",
            "#notetype: Basic (and reversed card)",
            "#deck column: 4",
            "#tags column: 3",
        ]
    );
}

#[test]
fn output_has_one_row_per_surviving_record_in_order() {
    let records = vec![
        term("a", None, "ta", ""),
        term("b", Some("a"), "tb", ""),
        term("c", None, "tc", ""),
        term("d", None, "", ""),
        term("e", None, "te", "noanki"),
        term("f", None, "tf", ""),
    ];
    let notes = convert_all(records);
    assert_eq!(notes.len(), 3);
    assert_eq!(notes[0].front, "a");
    assert_eq!(notes[1].front, "c");
    assert_eq!(notes[2].front, "f");
}

#[test]
fn empty_input_yields_no_notes() {
    assert_eq!(convert_all(Vec::new()).len(), 0);
}
