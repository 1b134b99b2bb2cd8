use mdbook_chapter_path::{Config, NameIndex, PathProcessor, PathProcessorOptions};

fn config(site_url: Option<&str>, strict: Option<bool>) -> Config {
    Config { site_url: site_url.map(|s| s.to_string()), strict }
}

fn options(site_path: &str, strict_mode: bool) -> PathProcessorOptions {
    PathProcessorOptions { site_path: site_path.to_string(), strict_mode }
}

#[test]
fn defaults_are_root_and_lenient() {
    assert_eq!(PathProcessor.process_options(&config(None, None)), options("/", false));
}

#[test]
fn site_path_gets_its_trailing_slash() {
    assert_eq!(PathProcessor.process_options(&config(Some("/docs"), None)), options("/docs/", false));
    assert_eq!(PathProcessor.process_options(&config(Some("/docs/"), None)), options("/docs/", false));
    assert_eq!(PathProcessor.process_options(&config(Some(""), None)), options("/", false));
    assert_eq!(PathProcessor.process_options(&config(Some("/"), None)), options("/", false));
    assert_eq!(PathProcessor.process_options(&config(Some("a//"), None)), options("a//", false));
    assert_eq!(
        PathProcessor.process_options(&config(Some("https://example.org/b\u{fc}cher"), None)),
        options("https://example.org/b\u{fc}cher/", false)
    );
}

#[test]
fn strict_mode_is_read() {
    assert_eq!(PathProcessor.process_options(&config(None, Some(true))), options("/", true));
    assert_eq!(PathProcessor.process_options(&config(Some("/x/"), Some(false))), options("/x/", false));
}

#[test]
fn site_path_with_and_without_slash_give_the_same_links() {
    let mut names = NameIndex::new();
    names.insert("foo".to_string(), "something/Foo.md".to_string());
    let without = PathProcessor.process_options(&config(Some("/docs"), None));
    let with = PathProcessor.process_options(&config(Some("/docs/"), None));
    let content = "see {{#path_for Foo#top}}";
    let first = PathProcessor.process_chapter(content, &names, &without);
    let second = PathProcessor.process_chapter(content, &names, &with);
    assert_eq!(first, Ok("see /docs/something/Foo.md#top".to_string()));
    assert_eq!(first, second);
}

#[test]
fn processor_is_named_chapter_path() {
    assert_eq!(PathProcessor.name(), "chapter-path");
}

#[test]
fn only_html_is_supported() {
    assert!(PathProcessor.supports_renderer("html"));
    assert!(!PathProcessor.supports_renderer("HTML"));
    assert!(!PathProcessor.supports_renderer("htm"));
    assert!(!PathProcessor.supports_renderer("html5"));
    assert!(!PathProcessor.supports_renderer("xtml"));
    assert!(!PathProcessor.supports_renderer(""));
    assert!(!PathProcessor.supports_renderer("markdown"));
}
