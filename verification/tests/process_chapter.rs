use mdbook_chapter_path::resolve::substitute;
use mdbook_chapter_path::{Capture, NameIndex, PathProcessor, PathProcessorOptions, ProcessorError};

fn processor_options(site_path: &str) -> PathProcessorOptions {
    PathProcessorOptions { site_path: site_path.to_string(), strict_mode: false }
}

fn foo_mapping() -> NameIndex {
    let mut chapter_mapping = NameIndex::new();
    chapter_mapping.insert("foo".to_string(), "something/Foo.md".to_string());
    chapter_mapping
}

#[test]
fn test_process_chapter_replaces_links_to_top_level() {
    let content = "[foo]({{#path_for Foo}})";

    let chapter_mapping = foo_mapping();

    let subject = PathProcessor;

    let received_chapter =
        subject.process_chapter(&content, &chapter_mapping, &processor_options("/")).unwrap();

    let expected_chapter = "[foo](/something/Foo.md)";

    assert_eq!(received_chapter, expected_chapter.to_string());
}

#[test]
fn test_process_chapter_replaces_links_to_anchor() {
    let content = "[foo]({{#path_for Foo#bar}})";

    let chapter_mapping = foo_mapping();

    let subject = PathProcessor;

    let received_chapter =
        subject.process_chapter(&content, &chapter_mapping, &processor_options("/root/")).unwrap();

    let expected_chapter = "[foo](/root/something/Foo.md#bar)";

    assert_eq!(received_chapter, expected_chapter.to_string());
}

#[test]
fn content_without_placeholders_is_unchanged() {
    let subject = PathProcessor;
    let content = "# Title\n\nNo links here, only {{ braces }} and {{#include x.md}}.\n";
    let received = subject.process_chapter(content, &foo_mapping(), &processor_options("/"));
    assert_eq!(received, Ok(content.to_string()));
    let empty = subject.process_chapter("", &foo_mapping(), &processor_options("/"));
    assert_eq!(empty, Ok(String::new()));
}

#[test]
fn processing_again_changes_nothing() {
    let subject = PathProcessor;
    let options = processor_options("/");
    let once = subject.process_chapter("[foo]({{#path_for Foo}})", &foo_mapping(), &options).unwrap();
    let twice = subject.process_chapter(&once, &foo_mapping(), &options).unwrap();
    assert_eq!(twice, once);
}

#[test]
fn text_around_placeholders_is_kept() {
    let subject = PathProcessor;
    let mut names = foo_mapping();
    names.insert("bar".to_string(), "deep/er/Bar.md".to_string());
    let content = "  a\t{{#path_for foo}}\n\nb {{#path_for Bar#top}} c \u{e9}\u{4e16} {{#path_for FOO}}  ";
    let received = subject.process_chapter(content, &names, &processor_options("/s/")).unwrap();
    assert_eq!(
        received,
        "  a\t/s/something/Foo.md\n\nb /s/deep/er/Bar.md#top c \u{e9}\u{4e16} /s/something/Foo.md  "
    );
}

#[test]
fn text_with_wide_characters_is_kept() {
    let subject = PathProcessor;
    let content = "\u{1f600}\u{e9}{{#path_for Foo#\u{e9}t\u{e9}}}\u{4e16}\u{754c}";
    let received = subject.process_chapter(content, &foo_mapping(), &processor_options("/")).unwrap();
    assert_eq!(received, "\u{1f600}\u{e9}/something/Foo.md#\u{e9}t\u{e9}\u{4e16}\u{754c}");
}

#[test]
fn names_are_looked_up_without_regard_to_case() {
    let subject = PathProcessor;
    let options = processor_options("/");
    let upper = subject.process_chapter("{{#path_for FOO}}", &foo_mapping(), &options);
    let lower = subject.process_chapter("{{#path_for foo}}", &foo_mapping(), &options);
    assert_eq!(upper, Ok("/something/Foo.md".to_string()));
    assert_eq!(upper, lower);
}

#[test]
fn anchor_is_kept_as_written() {
    let subject = PathProcessor;
    let received =
        subject.process_chapter("{{#path_for Foo#Some Anchor}}", &foo_mapping(), &processor_options("/"));
    assert_eq!(received, Ok("/something/Foo.md#Some Anchor".to_string()));
    let empty_anchor = subject.process_chapter("{{#path_for Foo#}}", &foo_mapping(), &processor_options("/"));
    assert_eq!(empty_anchor, Ok("/something/Foo.md#".to_string()));
}

#[test]
fn missing_chapter_is_an_error() {
    let subject = PathProcessor;
    let received = subject.process_chapter(
        "before {{#path_for Missing}} after",
        &foo_mapping(),
        &processor_options("/"),
    );
    assert_eq!(received, Err(ProcessorError::ChapterNotFound("missing".to_string())));
}

#[test]
fn first_failing_placeholder_decides() {
    let subject = PathProcessor;
    let options = processor_options("/");
    let received = subject.process_chapter(
        "{{#path_for Foo}} {{#path_for Gone}} {{#path_for a#b#c}}",
        &foo_mapping(),
        &options,
    );
    assert_eq!(received, Err(ProcessorError::ChapterNotFound("gone".to_string())));
    let received = subject.process_chapter(
        "{{#path_for Foo}} {{#path_for a#b#c}} {{#path_for Gone}}",
        &foo_mapping(),
        &options,
    );
    assert_eq!(received, Err(ProcessorError::MalformedReference));
}

#[test]
fn reference_with_two_hashes_is_malformed() {
    let subject = PathProcessor;
    let received =
        subject.process_chapter("{{#path_for Foo#a#b}}", &foo_mapping(), &processor_options("/"));
    assert_eq!(received, Err(ProcessorError::MalformedReference));
}

#[test]
fn placeholder_ends_at_the_first_closing() {
    let subject = PathProcessor;
    let received = subject.process_chapter(
        "{{#path_for Foo}} and }} more }}",
        &foo_mapping(),
        &processor_options("/"),
    );
    assert_eq!(received, Ok("/something/Foo.md and }} more }}".to_string()));
}

#[test]
fn placeholder_does_not_span_lines() {
    let subject = PathProcessor;
    let content = "{{#path_for Foo\n}} {{#path_for }}";
    let received = subject.process_chapter(content, &foo_mapping(), &processor_options("/"));
    assert_eq!(received, Ok(content.to_string()));
}

#[test]
fn substitute_replaces_the_given_captures() {
    let content = "ab<X>cd<Foo#y>";
    let captures = vec![
        Capture { start: 2, end: 5, group: Some((3, 4)) },
        Capture { start: 7, end: 14, group: Some((8, 13)) },
    ];
    let mut names = foo_mapping();
    names.insert("x".to_string(), "x.md".to_string());
    assert_eq!(substitute(content, &captures, &names, "/"), Ok("ab/x.mdcd/something/Foo.md#y".to_string()));
}

#[test]
fn substitute_passes_over_a_capture_without_group() {
    let content = "ab<X>cd<Foo>";
    let captures = vec![
        Capture { start: 2, end: 5, group: None },
        Capture { start: 7, end: 12, group: Some((8, 11)) },
    ];
    assert_eq!(
        substitute(content, &captures, &foo_mapping(), "/p/"),
        Ok("ab<X>cd/p/something/Foo.md".to_string())
    );
}

#[test]
fn substitute_without_captures_keeps_the_text() {
    let captures: Vec<Capture> = Vec::new();
    assert_eq!(
        substitute("{{#path_for Foo}}", &captures, &foo_mapping(), "/"),
        Ok("{{#path_for Foo}}".to_string())
    );
}
