use mdbook_chapter_path::processor::DuplicateChapter;
use mdbook_chapter_path::{
    Book, BookItem, Chapter, NameIndex, PathProcessor, PathProcessorOptions, ProcessorError,
};

fn chapter(name: &str, path: Option<&str>) -> BookItem {
    BookItem::Chapter(Chapter {
        name: name.to_string(),
        path: path.map(|p| p.to_string()),
        content: String::new(),
    })
}

fn options(strict_mode: bool) -> PathProcessorOptions {
    PathProcessorOptions { site_path: "/".to_string(), strict_mode }
}

fn key(name: &str) -> String {
    name.to_string()
}

#[test]
fn names_are_entered_in_lowercase() {
    let book = Book {
        items: vec![
            chapter("Intro", Some("intro.md")),
            BookItem::Separator,
            chapter("Getting STARTED", Some("guide/start.md")),
            BookItem::PartTitle("Part".to_string()),
            chapter("\u{c9}t\u{e9}", Some("ete.md")),
        ],
    };
    let names = PathProcessor.chapter_names(&book, &options(true)).unwrap();
    assert_eq!(names.len(), 3);
    assert_eq!(names.get(&key("intro")), Some(&"intro.md".to_string()));
    assert_eq!(names.get(&key("getting started")), Some(&"guide/start.md".to_string()));
    assert_eq!(names.get(&key("\u{e9}t\u{e9}")), Some(&"ete.md".to_string()));
    assert_eq!(names.get(&key("Intro")), None);
    assert_eq!(names.get(&key("part")), None);
}

#[test]
fn empty_book_has_no_names() {
    let book = Book { items: Vec::new() };
    let names = PathProcessor.chapter_names(&book, &options(true)).unwrap();
    assert_eq!(names.len(), 0);
    assert!(PathProcessor.duplicate_chapters(&book).is_empty());
}

#[test]
fn draft_chapter_is_not_entered() {
    let book = Book {
        items: vec![chapter("Draft", None), chapter("draft", Some("real.md")), chapter("DRAFT", None)],
    };
    let names = PathProcessor.chapter_names(&book, &options(true)).unwrap();
    assert_eq!(names.len(), 1);
    assert_eq!(names.get(&key("draft")), Some(&"real.md".to_string()));
    assert!(PathProcessor.duplicate_chapters(&book).is_empty());
}

#[test]
fn duplicate_names_fail_in_strict_mode() {
    let book = Book {
        items: vec![chapter("Intro", Some("a/intro.md")), chapter("Intro", Some("b/intro.md"))],
    };
    let names = PathProcessor.chapter_names(&book, &options(true));
    assert_eq!(names.err(), Some(ProcessorError::DuplicateChapterNames("intro".to_string())));
}

#[test]
fn duplicate_names_in_any_case_fail_in_strict_mode() {
    let book = Book {
        items: vec![
            chapter("Other", Some("other.md")),
            chapter("INTRO", Some("a/intro.md")),
            chapter("other one", Some("one.md")),
            chapter("intro", Some("b/intro.md")),
            chapter("OTHER", Some("again.md")),
        ],
    };
    let names = PathProcessor.chapter_names(&book, &options(true));
    assert_eq!(names.err(), Some(ProcessorError::DuplicateChapterNames("intro".to_string())));
}

#[test]
fn first_chapter_wins_without_strict_mode() {
    let book = Book {
        items: vec![
            chapter("Intro", Some("a/intro.md")),
            chapter("INTRO", Some("b/intro.md")),
            chapter("More", Some("more.md")),
            chapter("intro", Some("c/intro.md")),
        ],
    };
    let names = PathProcessor.chapter_names(&book, &options(false)).unwrap();
    assert_eq!(names.len(), 2);
    assert_eq!(names.get(&key("intro")), Some(&"a/intro.md".to_string()));
    assert_eq!(names.get(&key("more")), Some(&"more.md".to_string()));
}

#[test]
fn duplicates_are_listed_with_the_path_that_stays() {
    let book = Book {
        items: vec![
            chapter("Intro", Some("a/intro.md")),
            chapter("INTRO", Some("b/intro.md")),
            chapter("More", Some("more.md")),
            chapter("intro", Some("c/intro.md")),
        ],
    };
    let duplicates = PathProcessor.duplicate_chapters(&book);
    assert_eq!(
        duplicates,
        vec![
            DuplicateChapter {
                name: "INTRO".to_string(),
                path: "b/intro.md".to_string(),
                existing_path: "a/intro.md".to_string(),
            },
            DuplicateChapter {
                name: "intro".to_string(),
                path: "c/intro.md".to_string(),
                existing_path: "a/intro.md".to_string(),
            },
        ]
    );
    assert_eq!(
        duplicates[0].message(),
        "Warning: Found duplicate chapter name INTRO at b/intro.md (existing chapter at a/intro.md)"
    );
}

#[test]
fn strict_mode_changes_nothing_without_duplicates() {
    let book = Book {
        items: vec![chapter("One", Some("1.md")), chapter("Two", Some("2.md"))],
    };
    let strict = PathProcessor.chapter_names(&book, &options(true)).unwrap();
    let lenient = PathProcessor.chapter_names(&book, &options(false)).unwrap();
    for name in ["one", "two", "three"] {
        assert_eq!(strict.get(&key(name)), lenient.get(&key(name)));
    }
    assert_eq!(strict.len(), lenient.len());
}

#[test]
fn index_insert_replaces_and_hands_back() {
    let mut index = NameIndex::new();
    assert_eq!(index.len(), 0);
    assert!(!index.contains_key(&key("a")));
    assert_eq!(index.insert(key("a"), "1".to_string()), None);
    assert_eq!(index.insert(key("b"), "2".to_string()), None);
    assert_eq!(index.insert(key("a"), "3".to_string()), Some("1".to_string()));
    assert_eq!(index.len(), 2);
    assert!(index.contains_key(&key("a")));
    assert_eq!(index.get(&key("a")), Some(&"3".to_string()));
    assert_eq!(index.get(&key("b")), Some(&"2".to_string()));
    assert_eq!(index.get(&key("A")), None);
    assert_eq!(index.get(&key("")), None);
}
