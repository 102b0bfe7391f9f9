use lute_to_anki::tags::TagList;

#[test]
fn parse_empty_renders_empty() {
    let t = TagList::parse("");
    assert!(t.is_empty());
    assert_eq!(t.render(), "");
}

#[test]
fn parse_blank_renders_empty() {
    let t = TagList::parse("   ");
    assert!(t.is_empty());
    assert_eq!(t.render(), "");
}

#[test]
fn parse_sorts_and_dedups() {
    let t = TagList::parse("b, a, a, c");
    assert_eq!(t.render(), "a b c");
}

#[test]
fn parse_replaces_interior_spaces() {
    let t = TagList::parse("multi word, x");
    assert_eq!(t.render(), "multi_word x");
}

#[test]
fn reparse_of_rendered_single_tag_is_stable() {
    let r = TagList::parse("  food  ").render();
    assert_eq!(r, "food");
    assert_eq!(TagList::parse(&r).render(), r);
}

#[test]
fn reparse_of_rendered_empty_is_stable() {
    let r = TagList::parse(" , ").render();
    assert_eq!(TagList::parse(&r).render(), r);
}

#[test]
fn reparse_of_rendered_pair_folds_into_one_tag() {
    let r = TagList::parse("b, a").render();
    assert_eq!(r, "a b");
    assert_eq!(TagList::parse(&r).render(), "a_b");
}

#[test]
fn comma_only_field_keeps_one_empty_tag() {
    let t = TagList::parse(",");
    assert!(!t.is_empty());
    assert!(t.contains(""));
    assert_eq!(t.render(), "");
}

#[test]
fn contains_is_exact_match() {
    let t = TagList::parse("x, multi word");
    assert!(t.contains("x"));
    assert!(t.contains("multi_word"));
    assert!(!t.contains("multi word"));
    assert!(!t.contains("y"));
    assert!(!t.contains(""));
}

#[test]
fn is_empty_false_on_nonempty() {
    assert!(!TagList::parse("a").is_empty());
}

#[test]
fn filter_keeps_order_and_sortedness() {
    let t = TagList::parse("d, b, a, c");
    let kept = t.filter(|tag| tag != "b" && tag != "d");
    assert_eq!(kept.render(), "a c");
}

#[test]
fn filter_keeping_all_is_identity() {
    let t = TagList::parse("b, a");
    assert_eq!(t.filter(|_| true).render(), "a b");
    assert_eq!(t.filter(|_| false).render(), "");
}
