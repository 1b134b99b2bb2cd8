//! The book as its processing sees it, and the settings that go with it.

use vstd::prelude::*;

verus! {

/// A chapter of a book.
#[derive(Debug, PartialEq, Eq)]
pub struct Chapter {
    /// The name under which the chapter is listed.
    pub name: String,
    /// The path of the chapter's file, relative to the book's sources. A
    /// draft chapter has none.
    pub path: Option<String>,
    /// The text of the chapter.
    pub content: String,
}

/// An item of a book.
#[derive(Debug, PartialEq, Eq)]
pub enum BookItem {
    /// A chapter.
    Chapter(Chapter),
    /// A line that parts two groups of chapters.
    Separator,
    /// The title of a part of the book.
    PartTitle(String),
}

/// A book: its items in reading order, each nested chapter behind the one
/// that it belongs to.
#[derive(Debug, PartialEq, Eq)]
pub struct Book {
    pub items: Vec<BookItem>,
}

/// What a book's configuration says of its processing. A value that the
/// configuration does not give is `None`.
#[derive(Debug, PartialEq, Eq)]
pub struct Config {
    /// The address under which the rendered book is served.
    pub site_url: Option<String>,
    /// Whether two chapters of one name are an error.
    pub strict: Option<bool>,
}

/// The model of a [`Chapter`].
pub ghost struct ChapterModel {
    pub name: Seq<char>,
    pub path: Option<Seq<char>>,
    pub content: Seq<char>,
}

/// The model of a [`BookItem`].
pub ghost enum ItemModel {
    Chapter(ChapterModel),
    Separator,
    PartTitle(Seq<char>),
}

/// The model of a [`Config`].
pub ghost struct ConfigModel {
    pub site_url: Option<Seq<char>>,
    pub strict: Option<bool>,
}

impl View for Chapter {
    type V = ChapterModel;

    open spec fn view(&self) -> ChapterModel {
        ChapterModel {
            name: self.name@,
            path: match self.path {
                Some(path) => Some(path@),
                None => None,
            },
            content: self.content@,
        }
    }
}

impl View for BookItem {
    type V = ItemModel;

    open spec fn view(&self) -> ItemModel {
        match self {
            BookItem::Chapter(chapter) => ItemModel::Chapter(chapter@),
            BookItem::Separator => ItemModel::Separator,
            BookItem::PartTitle(title) => ItemModel::PartTitle(title@),
        }
    }
}

impl View for Book {
    type V = Seq<ItemModel>;

    open spec fn view(&self) -> Seq<ItemModel> {
        self.items@.map_values(|item: BookItem| item@)
    }
}

impl View for Config {
    type V = ConfigModel;

    open spec fn view(&self) -> ConfigModel {
        ConfigModel {
            site_url: match self.site_url {
                Some(site_url) => Some(site_url@),
                None => None,
            },
            strict: self.strict,
        }
    }
}

} // verus!
