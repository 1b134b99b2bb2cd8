use mdbook_chapter_path::resolve::resolve_reference;
use mdbook_chapter_path::text::{ends_with_char, same_text, slice};
use mdbook_chapter_path::{FileLink, NameIndex, ProcessorError};

fn names() -> NameIndex {
    let mut names = NameIndex::new();
    names.insert("foo".to_string(), "something/Foo.md".to_string());
    names
}

#[test]
fn reference_without_hash_is_a_name() {
    let link = FileLink::from_string("Some Chapter").unwrap();
    assert_eq!(link.name, "Some Chapter");
    assert_eq!(link.anchor, None);
}

#[test]
fn reference_with_one_hash_has_an_anchor() {
    let link = FileLink::from_string("Foo#bar").unwrap();
    assert_eq!(link.name, "Foo");
    assert_eq!(link.anchor, Some("bar"));
}

#[test]
fn reference_parts_may_be_empty() {
    let link = FileLink::from_string("").unwrap();
    assert_eq!((link.name, link.anchor), ("", None));
    let link = FileLink::from_string("#").unwrap();
    assert_eq!((link.name, link.anchor), ("", Some("")));
    let link = FileLink::from_string("#top").unwrap();
    assert_eq!((link.name, link.anchor), ("", Some("top")));
    let link = FileLink::from_string("Foo#").unwrap();
    assert_eq!((link.name, link.anchor), ("Foo", Some("")));
}

#[test]
fn reference_with_wide_characters() {
    let link = FileLink::from_string("\u{c9}t\u{e9} \u{4e16}#\u{754c}\u{1f600}").unwrap();
    assert_eq!(link.name, "\u{c9}t\u{e9} \u{4e16}");
    assert_eq!(link.anchor, Some("\u{754c}\u{1f600}"));
}

#[test]
fn reference_with_more_hashes_is_refused() {
    assert_eq!(FileLink::from_string("a#b#c").err(), Some(ProcessorError::MalformedReference));
    assert_eq!(FileLink::from_string("##").err(), Some(ProcessorError::MalformedReference));
    assert_eq!(FileLink::from_string("a#b#").err(), Some(ProcessorError::MalformedReference));
    assert_eq!(FileLink::from_string("#a#b#c#").err(), Some(ProcessorError::MalformedReference));
}

#[test]
fn link_is_site_path_then_path_then_anchor() {
    assert_eq!(resolve_reference("Foo", &names(), "/"), Ok("/something/Foo.md".to_string()));
    assert_eq!(
        resolve_reference("fOO#Bar", &names(), "/root/"),
        Ok("/root/something/Foo.md#Bar".to_string())
    );
    assert_eq!(resolve_reference("foo", &names(), ""), Ok("something/Foo.md".to_string()));
}

#[test]
fn link_fails_for_unknown_and_malformed() {
    assert_eq!(
        resolve_reference("Missing#x", &names(), "/"),
        Err(ProcessorError::ChapterNotFound("missing".to_string()))
    );
    assert_eq!(
        resolve_reference(" Foo", &names(), "/"),
        Err(ProcessorError::ChapterNotFound(" foo".to_string()))
    );
    assert_eq!(resolve_reference("Foo#a#b", &names(), "/"), Err(ProcessorError::MalformedReference));
    assert_eq!(resolve_reference("Nope#a#b", &names(), "/"), Err(ProcessorError::MalformedReference));
}

#[test]
fn error_messages() {
    assert_eq!(
        ProcessorError::ChapterNotFound("missing".to_string()).message(),
        "Error: Found request to replace link with 'missing', but no chapter with that name found."
    );
    assert_eq!(
        ProcessorError::DuplicateChapterNames("intro".to_string()).message(),
        "Error: Found duplicate chapter name intro"
    );
    assert_eq!(
        ProcessorError::MalformedReference.message(),
        "Invalid link parsed: Multiple '#'s detected"
    );
}

#[test]
fn slice_cuts_between_byte_offsets() {
    let content = "a\u{e9}b\u{4e16}c";
    assert_eq!(slice(content, 0, 0), "");
    assert_eq!(slice(content, 0, 1), "a");
    assert_eq!(slice(content, 1, 3), "\u{e9}");
    assert_eq!(slice(content, 3, 7), "b\u{4e16}");
    assert_eq!(slice(content, 7, 8), "c");
    assert_eq!(slice(content, 8, 8), "");
    assert_eq!(slice(content, 0, 8), content);
}

#[test]
fn same_text_compares_whole_strings() {
    assert!(same_text("", ""));
    assert!(same_text("html", "html"));
    assert!(!same_text("html", "htmL"));
    assert!(!same_text("html", "htm"));
    assert!(!same_text("", "x"));
    assert!(same_text("\u{e9}", "\u{e9}"));
    assert!(!same_text("\u{e9}", "e"));
}

#[test]
fn ends_with_char_looks_at_the_last_character() {
    assert!(ends_with_char("/", '/'));
    assert!(ends_with_char("a/b/", '/'));
    assert!(!ends_with_char("a/b", '/'));
    assert!(!ends_with_char("", '/'));
    assert!(ends_with_char("caf\u{e9}", '\u{e9}'));
    assert!(!ends_with_char("caf\u{e9}", '/'));
}
