//! The processor: from a book and its configuration to the book with every
//! placeholder resolved.

use vstd::prelude::*;
use vstd::string::StringExecFns;

use crate::book::{Book, BookItem, Chapter, ChapterModel, Config, ConfigModel, ItemModel};
use crate::error::{Failure, ProcessorError};
use crate::index::NameIndex;
use crate::resolve::{outcome, resolved, substitute};
use crate::scan::{captures_of, find_captures, placeholder_group, placeholder_pattern};
use crate::text::{ends_with_char, lowercase_of, same_text, to_lowercase};

verus! {

/// Replaces the placeholders `{{#path_for <name>}}` and
/// `{{#path_for <name>#<anchor>}}` in the chapters of a book by links to the
/// chapters they name.
pub struct PathProcessor;

/// The settings of one run.
#[derive(Debug, PartialEq, Eq)]
pub struct PathProcessorOptions {
    /// What every link begins with.
    pub site_path: String,
    /// Whether two chapters of one name are an error.
    pub strict_mode: bool,
}

/// A chapter that came under a name which an earlier chapter had taken.
#[derive(Debug, PartialEq, Eq)]
pub struct DuplicateChapter {
    /// The name of the chapter, as written.
    pub name: String,
    /// The path of the chapter's file.
    pub path: String,
    /// The path of the chapter that has the name in the table.
    pub existing_path: String,
}

/// The model of a [`DuplicateChapter`].
pub ghost struct DuplicateModel {
    pub name: Seq<char>,
    pub path: Seq<char>,
    pub existing_path: Seq<char>,
}

impl View for DuplicateChapter {
    type V = DuplicateModel;

    open spec fn view(&self) -> DuplicateModel {
        DuplicateModel {
            name: self.name@,
            path: self.path@,
            existing_path: self.existing_path@,
        }
    }
}

/// The text of [`DuplicateChapter::message`].
pub open spec fn warning_of(duplicate: DuplicateModel) -> Seq<char> {
    "Warning: Found duplicate chapter name "@ + duplicate.name + " at "@ + duplicate.path
        + " (existing chapter at "@ + duplicate.existing_path + ")"@
}

impl DuplicateChapter {
    /// The warning that tells a reader of the diagnostics of the chapter.
    pub fn message(&self) -> (text: String)
        ensures
            text@ == warning_of(self@),
    {
        String::from_str("Warning: Found duplicate chapter name ").concat(
            self.name.as_str(),
        ).concat(" at ").concat(self.path.as_str()).concat(" (existing chapter at ").concat(
            self.existing_path.as_str(),
        ).concat(")")
    }
}

/// The model of [`PathProcessorOptions`].
pub ghost struct OptionsModel {
    pub site_path: Seq<char>,
    pub strict_mode: bool,
}

impl View for PathProcessorOptions {
    type V = OptionsModel;

    open spec fn view(&self) -> OptionsModel {
        OptionsModel { site_path: self.site_path@, strict_mode: self.strict_mode }
    }
}

/// `path`, with a `/` added at its end unless it ends in one.
pub open spec fn with_trailing_slash(path: Seq<char>) -> Seq<char> {
    if path.len() > 0 && path.last() == '/' {
        path
    } else {
        path + seq!['/']
    }
}

/// The settings that a configuration asks for. Without a site address the
/// links begin with `/`; without a word on strictness, a name that two
/// chapters share is no error.
pub open spec fn options_of(config: ConfigModel) -> OptionsModel {
    OptionsModel {
        site_path: with_trailing_slash(
            match config.site_url {
                Some(site_url) => site_url,
                None => seq!['/'],
            },
        ),
        strict_mode: match config.strict {
            Some(strict) => strict,
            None => false,
        },
    }
}

/// The table of names once the items from the `next`-th on are entered into
/// `index`.
///
/// A chapter with a path is entered under its name in lowercase. Where the
/// name is taken, strict mode fails and names it; otherwise the entry that
/// came first stays. Chapters without a path and items that are no chapters
/// enter nothing.
pub open spec fn indexed_from(
    items: Seq<ItemModel>,
    next: int,
    strict: bool,
    index: Map<Seq<char>, Seq<char>>,
) -> Result<Map<Seq<char>, Seq<char>>, Failure>
    decreases items.len() - next,
{
    if next < 0 || next >= items.len() {
        Ok(index)
    } else {
        match items[next] {
            ItemModel::Chapter(ChapterModel { name, path: Some(path), content }) => {
                let key = lowercase_of(name);
                if !index.contains_key(key) {
                    indexed_from(items, next + 1, strict, index.insert(key, path))
                } else if strict {
                    Err(Failure::DuplicateChapterNames(key))
                } else {
                    indexed_from(items, next + 1, strict, index)
                }
            },
            _ => indexed_from(items, next + 1, strict, index),
        }
    }
}

/// The chapters from the `next`-th item on that come under a name which
/// `index`, or a chapter between, has taken: each with the path that the
/// name stands for.
pub open spec fn duplicates_from(
    items: Seq<ItemModel>,
    next: int,
    index: Map<Seq<char>, Seq<char>>,
) -> Seq<DuplicateModel>
    decreases items.len() - next,
{
    if next < 0 || next >= items.len() {
        Seq::empty()
    } else {
        match items[next] {
            ItemModel::Chapter(ChapterModel { name, path: Some(path), content }) => {
                let key = lowercase_of(name);
                if !index.contains_key(key) {
                    duplicates_from(items, next + 1, index.insert(key, path))
                } else {
                    seq![DuplicateModel { name, path, existing_path: index[key] }]
                        + duplicates_from(items, next + 1, index)
                }
            },
            _ => duplicates_from(items, next + 1, index),
        }
    }
}

/// The chapters of a book that share their name with an earlier chapter, in
/// reading order.
pub open spec fn duplicates_of(items: Seq<ItemModel>) -> Seq<DuplicateModel> {
    duplicates_from(items, 0, Map::empty())
}

/// The table of the names of a book's chapters.
pub open spec fn index_of(items: Seq<ItemModel>, strict: bool) -> Result<
    Map<Seq<char>, Seq<char>>,
    Failure,
> {
    indexed_from(items, 0, strict, Map::empty())
}

/// The text of a chapter with its placeholders resolved.
pub open spec fn processed_content(
    content: Seq<char>,
    index: Map<Seq<char>, Seq<char>>,
    site_path: Seq<char>,
) -> Result<Seq<char>, Failure> {
    resolved(
        content,
        captures_of(placeholder_pattern(), placeholder_group(), content),
        index,
        site_path,
    )
}

/// An item as a run hands it back: a chapter with its text processed, any
/// other item as it is.
pub open spec fn processed_item(
    item: ItemModel,
    index: Map<Seq<char>, Seq<char>>,
    site_path: Seq<char>,
) -> Result<ItemModel, Failure> {
    match item {
        ItemModel::Chapter(chapter) => match processed_content(chapter.content, index, site_path) {
            Ok(content) => Ok(
                ItemModel::Chapter(
                    ChapterModel { name: chapter.name, path: chapter.path, content },
                ),
            ),
            Err(failure) => Err(failure),
        },
        other => Ok(other),
    }
}

/// The items from the `next`-th on, each of them processed. The first
/// chapter whose text cannot be processed decides the failure.
pub open spec fn processed_from(
    items: Seq<ItemModel>,
    next: int,
    index: Map<Seq<char>, Seq<char>>,
    site_path: Seq<char>,
) -> Result<Seq<ItemModel>, Failure>
    decreases items.len() - next,
{
    if next < 0 || next >= items.len() {
        Ok(Seq::empty())
    } else {
        match processed_item(items[next], index, site_path) {
            Err(failure) => Err(failure),
            Ok(item) => match processed_from(items, next + 1, index, site_path) {
                Err(failure) => Err(failure),
                Ok(rest) => Ok(seq![item] + rest),
            },
        }
    }
}

/// The book that a run hands back: the table of names is built, then every
/// chapter's text is processed with it.
pub open spec fn processed_book(items: Seq<ItemModel>, config: ConfigModel) -> Result<
    Seq<ItemModel>,
    Failure,
> {
    let options = options_of(config);
    match index_of(items, options.strict_mode) {
        Err(failure) => Err(failure),
        Ok(index) => processed_from(items, 0, index, options.site_path),
    }
}

/// The model of what building the table returns.
pub open spec fn index_outcome(result: Result<NameIndex, ProcessorError>) -> Result<
    Map<Seq<char>, Seq<char>>,
    Failure,
> {
    match result {
        Ok(index) => Ok(index@),
        Err(error) => Err(error@),
    }
}

/// The model of what a run returns.
pub open spec fn book_outcome(result: Result<Book, ProcessorError>) -> Result<
    Seq<ItemModel>,
    Failure,
> {
    match result {
        Ok(book) => Ok(book@),
        Err(error) => Err(error@),
    }
}

impl PathProcessor {
    /// The name under which the processor is configured.
    pub fn name(&self) -> (name: &'static str)
        ensures
            name@ == "chapter-path"@,
    {
        "chapter-path"
    }

    /// Whether the processor works for `renderer`: it does for `html` alone.
    pub fn supports_renderer(&self, renderer: &str) -> (supported: bool)
        ensures
            supported == (renderer@ == "html"@),
    {
        same_text(renderer, "html")
    }

    /// Reads the settings of a run from the configuration.
    pub fn process_options(&self, ctx: &Config) -> (options: PathProcessorOptions)
        ensures
            options@ == options_of(ctx@),
    {
        proof {
            reveal_strlit("/");
            assert("/"@ =~= seq!['/']);
        }
        let mut site_path = match &ctx.site_url {
            Some(site_url) => site_url.clone(),
            None => String::from_str("/"),
        };
        if !ends_with_char(site_path.as_str(), '/') {
            site_path.append("/");
        }
        let strict_mode = match ctx.strict {
            Some(strict) => strict,
            None => false,
        };
        PathProcessorOptions { site_path, strict_mode }
    }

    /// Builds the table from the name of each chapter, in lowercase, to the
    /// path of its file.
    pub fn chapter_names(&self, book: &Book, options: &PathProcessorOptions) -> (names: Result<
        NameIndex,
        ProcessorError,
    >)
        ensures
            index_outcome(names) == index_of(book@, options.strict_mode),
    {
        let mut mapping = NameIndex::new();
        let mut next: usize = 0;
        while next < book.items.len()
            invariant
                next <= book.items.len(),
                index_of(book@, options.strict_mode) == indexed_from(
                    book@,
                    next as int,
                    options.strict_mode,
                    mapping@,
                ),
            decreases book.items.len() - next,
        {
            if let BookItem::Chapter(chapter) = &book.items[next] {
                if let Some(path) = &chapter.path {
                    let key = to_lowercase(chapter.name.as_str());
                    if !mapping.contains_key(&key) {
                        mapping.insert(key, path.clone());
                    } else if options.strict_mode {
                        return Err(ProcessorError::DuplicateChapterNames(key));
                    }
                }
            }
            next += 1;
        }
        Ok(mapping)
    }

    /// Lists the chapters that share their name, but for case, with an
    /// earlier chapter: those that the table of names leaves out when strict
    /// mode is off.
    pub fn duplicate_chapters(&self, book: &Book) -> (duplicates: Vec<DuplicateChapter>)
        ensures
            duplicates@.map_values(|duplicate: DuplicateChapter| duplicate@) == duplicates_of(
                book@,
            ),
    {
        let mut mapping = NameIndex::new();
        let mut duplicates: Vec<DuplicateChapter> = Vec::new();
        let mut next: usize = 0;
        proof {
            assert(duplicates@.map_values(|duplicate: DuplicateChapter| duplicate@)
                + duplicates_of(book@) =~= duplicates_of(book@));
        }
        while next < book.items.len()
            invariant
                next <= book.items.len(),
                duplicates_of(book@) == duplicates@.map_values(
                    |duplicate: DuplicateChapter| duplicate@,
                ) + duplicates_from(book@, next as int, mapping@),
            decreases book.items.len() - next,
        {
            if let BookItem::Chapter(chapter) = &book.items[next] {
                if let Some(path) = &chapter.path {
                    let key = to_lowercase(chapter.name.as_str());
                    match mapping.get(&key) {
                        None => {
                            mapping.insert(key, path.clone());
                        },
                        Some(existing_path) => {
                            let ghost before = duplicates@.map_values(
                                |duplicate: DuplicateChapter| duplicate@,
                            );
                            let duplicate = DuplicateChapter {
                                name: chapter.name.clone(),
                                path: path.clone(),
                                existing_path: existing_path.clone(),
                            };
                            duplicates.push(duplicate);
                            proof {
                                let after = duplicates@.map_values(
                                    |duplicate: DuplicateChapter| duplicate@,
                                );
                                assert(after =~= before.push(duplicate@));
                                let rest = duplicates_from(book@, next + 1, mapping@);
                                assert(before + (seq![duplicate@] + rest) =~= after + rest);
                            }
                        },
                    }
                }
            }
            next += 1;
        }
        proof {
            assert(duplicates@.map_values(|duplicate: DuplicateChapter| duplicate@)
                + Seq::<DuplicateModel>::empty() =~= duplicates@.map_values(
                |duplicate: DuplicateChapter| duplicate@,
            ));
        }
        duplicates
    }

    /// Resolves the placeholders of one chapter's text.
    pub fn process_chapter(
        &self,
        content: &str,
        chapter_names: &NameIndex,
        options: &PathProcessorOptions,
    ) -> (processed: Result<String, ProcessorError>)
        ensures
            outcome(processed) == processed_content(
                content@,
                chapter_names@,
                options.site_path@,
            ),
    {
        let captures = find_captures(r"\{\{#path_for (?P<file>.+?)}}", "file", content);
        substitute(content, &captures, chapter_names, options.site_path.as_str())
    }

    /// Processes a book: builds the table of its chapters' names and
    /// resolves the placeholders of every chapter with it. The items come
    /// back in their order, changed in the text of the chapters alone.
    pub fn run(&self, ctx: &Config, book: Book) -> (processed: Result<Book, ProcessorError>)
        ensures
            book_outcome(processed) == processed_book(book@, ctx@),
    {
        let options = self.process_options(ctx);
        let known_chapters = match self.chapter_names(&book, &options) {
            Ok(known_chapters) => known_chapters,
            Err(error) => {
                return Err(error);
            },
        };
        let mut items: Vec<BookItem> = Vec::new();
        let mut next: usize = 0;
        proof {
            assert(items@.map_values(|item: BookItem| item@) =~= Seq::<ItemModel>::empty());
            let all = processed_from(book@, 0, known_chapters@, options.site_path@);
            if all is Ok {
                assert(Seq::<ItemModel>::empty() + all->Ok_0 =~= all->Ok_0);
            }
        }
        while next < book.items.len()
            invariant
                next <= book.items.len(),
                options@ == options_of(ctx@),
                index_of(book@, options.strict_mode) == Ok::<_, Failure>(known_chapters@),
                processed_from(book@, 0, known_chapters@, options.site_path@) == items_followed_by(
                    items@.map_values(|item: BookItem| item@),
                    processed_from(book@, next as int, known_chapters@, options.site_path@),
                ),
            decreases book.items.len() - next,
        {
            let ghost before = items@.map_values(|item: BookItem| item@);
            let item = match &book.items[next] {
                BookItem::Chapter(chapter) => {
                    let content = match self.process_chapter(
                        chapter.content.as_str(),
                        &known_chapters,
                        &options,
                    ) {
                        Ok(content) => content,
                        Err(error) => {
                            return Err(error);
                        },
                    };
                    let path = match &chapter.path {
                        Some(path) => Some(path.clone()),
                        None => None,
                    };
                    BookItem::Chapter(Chapter { name: chapter.name.clone(), path, content })
                },
                BookItem::Separator => BookItem::Separator,
                BookItem::PartTitle(title) => BookItem::PartTitle(title.clone()),
            };
            assert(Ok::<ItemModel, Failure>(item@) == processed_item(
                book@[next as int],
                known_chapters@,
                options.site_path@,
            ));
            items.push(item);
            proof {
                let after = items@.map_values(|item: BookItem| item@);
                assert(after =~= before.push(item@));
                let rest = processed_from(
                    book@,
                    next + 1,
                    known_chapters@,
                    options.site_path@,
                );
                if rest is Ok {
                    assert(before + (seq![item@] + rest->Ok_0) =~= after + rest->Ok_0);
                }
            }
            next += 1;
        }
        proof {
            assert(items@.map_values(|item: BookItem| item@) + Seq::<ItemModel>::empty()
                =~= items@.map_values(|item: BookItem| item@));
        }
        Ok(Book { items })
    }
}

/// What is still to come behind `done`: `done` and the rest, or the failure.
pub open spec fn items_followed_by(
    done: Seq<ItemModel>,
    rest: Result<Seq<ItemModel>, Failure>,
) -> Result<Seq<ItemModel>, Failure> {
    match rest {
        Ok(rest) => Ok(done + rest),
        Err(failure) => Err(failure),
    }
}

} // verus!
