//! What holds of the processing as a whole, proved from the definitions.

use vstd::prelude::*;

use crate::book::{ChapterModel, ConfigModel, ItemModel};
use crate::error::Failure;
use crate::link::{
    count_of, first_index_of, is_malformed, lemma_first_index_of, reference_of,
};
use crate::processor::{
    duplicates_from, duplicates_of, index_of, indexed_from, options_of, processed_book,
    processed_content, processed_from, processed_item, with_trailing_slash, DuplicateModel,
};
use crate::resolve::{link_for, resolved, resolved_from};
use crate::scan::{captures_fit, captures_of, placeholder_group, placeholder_pattern, Capture};
use crate::text::{
    bytes_of, is_boundary, lemma_text_joins, lemma_whole_text, lowercase_of, text_between,
};

verus! {

/// A text in which nothing is captured is rewritten to itself.
pub proof fn law_nothing_captured(
    content: Seq<char>,
    captures: Seq<Capture>,
    index: Map<Seq<char>, Seq<char>>,
    site_path: Seq<char>,
)
    requires
        captures.len() == 0,
    ensures
        resolved(content, captures, index, site_path) == Ok::<Seq<char>, Failure>(content),
{
    lemma_whole_text(content);
}

/// A chapter's text without a placeholder is processed to itself, whatever
/// the table of names and the site path.
pub proof fn law_no_placeholder(
    content: Seq<char>,
    index: Map<Seq<char>, Seq<char>>,
    site_path: Seq<char>,
)
    requires
        captures_of(placeholder_pattern(), placeholder_group(), content).len() == 0,
    ensures
        processed_content(content, index, site_path) == Ok::<Seq<char>, Failure>(content),
{
    law_nothing_captured(
        content,
        captures_of(placeholder_pattern(), placeholder_group(), content),
        index,
        site_path,
    );
}

/// The text from the byte offset `last` on in which the `i`-th capture, for
/// each `i` from `next` on, gives way to `pieces[i]`, and what stands
/// between the captures is kept.
pub open spec fn woven_from(
    content: Seq<char>,
    captures: Seq<Capture>,
    next: int,
    last: int,
    pieces: Seq<Seq<char>>,
) -> Seq<char>
    decreases captures.len() - next,
{
    if next < 0 || next >= captures.len() {
        text_between(content, last, bytes_of(content).len() as int)
    } else {
        text_between(content, last, captures[next].start as int) + pieces[next] + woven_from(
            content,
            captures,
            next + 1,
            captures[next].end as int,
            pieces,
        )
    }
}

/// The text of each capture.
pub open spec fn captured_texts(content: Seq<char>, captures: Seq<Capture>) -> Seq<Seq<char>> {
    Seq::new(
        captures.len(),
        |i: int| text_between(content, captures[i].start as int, captures[i].end as int),
    )
}

/// Whether every capture has its group, and the text of the group has a
/// link.
pub open spec fn all_have_links(
    content: Seq<char>,
    captures: Seq<Capture>,
    index: Map<Seq<char>, Seq<char>>,
    site_path: Seq<char>,
) -> bool {
    forall|i: int|
        0 <= i < captures.len() ==> match (#[trigger] captures[i]).group {
            Some((from, to)) => link_for(
                text_between(content, from as int, to as int),
                index,
                site_path,
            ) is Ok,
            None => false,
        }
}

/// The link of each capture. It is meant for captures that all have one.
pub open spec fn links_of(
    content: Seq<char>,
    captures: Seq<Capture>,
    index: Map<Seq<char>, Seq<char>>,
    site_path: Seq<char>,
) -> Seq<Seq<char>> {
    Seq::new(
        captures.len(),
        |i: int|
            match captures[i].group {
                Some((from, to)) => link_for(
                    text_between(content, from as int, to as int),
                    index,
                    site_path,
                )->Ok_0,
                None => Seq::empty(),
            },
    )
}

proof fn lemma_woven_captured(content: Seq<char>, captures: Seq<Capture>, next: int, last: int)
    requires
        captures_fit(content, captures),
        0 <= next <= captures.len(),
        is_boundary(content, last),
        forall|j: int| next <= j < captures.len() ==> last <= (#[trigger] captures[j]).start,
    ensures
        woven_from(content, captures, next, last, captured_texts(content, captures))
            == text_between(content, last, bytes_of(content).len() as int),
    decreases captures.len() - next,
{
    if next < captures.len() {
        let capture = captures[next];
        let end = bytes_of(content).len() as int;
        lemma_whole_text(content);
        assert forall|j: int| next + 1 <= j < captures.len() implies capture.end <= (
        #[trigger] captures[j]).start by {
            assert(captures[next].end <= captures[j].start);
        }
        lemma_woven_captured(content, captures, next + 1, capture.end as int);
        lemma_text_joins(content, last, capture.start as int, capture.end as int);
        lemma_text_joins(content, last, capture.end as int, end);
    }
}

proof fn lemma_resolved_woven(
    content: Seq<char>,
    captures: Seq<Capture>,
    next: int,
    last: int,
    index: Map<Seq<char>, Seq<char>>,
    site_path: Seq<char>,
)
    requires
        0 <= next <= captures.len(),
        all_have_links(content, captures, index, site_path),
    ensures
        resolved_from(content, captures, next, last, index, site_path) == Ok::<
            Seq<char>,
            Failure,
        >(woven_from(content, captures, next, last, links_of(content, captures, index, site_path))),
    decreases captures.len() - next,
{
    if next < captures.len() {
        let capture = captures[next];
        assert(capture.group is Some);
        lemma_resolved_woven(content, captures, next + 1, capture.end as int, index, site_path);
    }
}

/// Where every placeholder has a link, the text around the placeholders is
/// kept as it is and in its order: the text read is the pieces between the
/// captures with the captured texts in their places, and the text written
/// is the same pieces with the links in those places.
pub proof fn law_text_around_is_kept(
    content: Seq<char>,
    captures: Seq<Capture>,
    index: Map<Seq<char>, Seq<char>>,
    site_path: Seq<char>,
)
    requires
        captures_fit(content, captures),
        all_have_links(content, captures, index, site_path),
    ensures
        content == woven_from(content, captures, 0, 0, captured_texts(content, captures)),
        resolved(content, captures, index, site_path) == Ok::<Seq<char>, Failure>(
            woven_from(content, captures, 0, 0, links_of(content, captures, index, site_path)),
        ),
{
    lemma_whole_text(content);
    lemma_woven_captured(content, captures, 0, 0);
    lemma_resolved_woven(content, captures, 0, 0, index, site_path);
}

/// The link of the `i`-th capture, or the reason why it has none. A capture
/// without its group is passed over, which is no failure.
pub open spec fn link_at(
    content: Seq<char>,
    captures: Seq<Capture>,
    i: int,
    index: Map<Seq<char>, Seq<char>>,
    site_path: Seq<char>,
) -> Result<Seq<char>, Failure> {
    match captures[i].group {
        Some((from, to)) => link_for(text_between(content, from as int, to as int), index, site_path),
        None => Ok(text_between(content, captures[i].start as int, captures[i].end as int)),
    }
}

/// Whether the `at`-th capture is the first from the `from`-th on that has
/// no link.
pub open spec fn lacks_link_first_at(
    content: Seq<char>,
    captures: Seq<Capture>,
    from: int,
    at: int,
    index: Map<Seq<char>, Seq<char>>,
    site_path: Seq<char>,
) -> bool {
    &&& from <= at < captures.len()
    &&& link_at(content, captures, at, index, site_path) is Err
    &&& forall|j: int|
        from <= j < at ==> (#[trigger] link_at(content, captures, j, index, site_path)) is Ok
}

proof fn lemma_first_failing_capture(
    content: Seq<char>,
    captures: Seq<Capture>,
    next: int,
    last: int,
    index: Map<Seq<char>, Seq<char>>,
    site_path: Seq<char>,
)
    requires
        0 <= next <= captures.len(),
    ensures
        match resolved_from(content, captures, next, last, index, site_path) {
            Ok(text) => forall|i: int|
                next <= i < captures.len() ==> (#[trigger] link_at(
                    content,
                    captures,
                    i,
                    index,
                    site_path,
                )) is Ok,
            Err(failure) => exists|i: int| #[trigger]
                lacks_link_first_at(content, captures, next, i, index, site_path) && link_at(
                    content,
                    captures,
                    i,
                    index,
                    site_path,
                ) == Err::<Seq<char>, Failure>(failure),
        },
    decreases captures.len() - next,
{
    if next < captures.len() {
        let new_last = if captures[next].group is Some {
            captures[next].end as int
        } else {
            last
        };
        lemma_first_failing_capture(content, captures, next + 1, new_last, index, site_path);
        match link_at(content, captures, next, index, site_path) {
            Err(failure) => {
                assert(lacks_link_first_at(content, captures, next, next, index, site_path));
            },
            Ok(link) => {
                match resolved_from(content, captures, next + 1, new_last, index, site_path) {
                    Err(failure) => {
                        let i = choose|i: int| #[trigger]
                            lacks_link_first_at(content, captures, next + 1, i, index, site_path)
                                && link_at(content, captures, i, index, site_path) == Err::<
                                Seq<char>,
                                Failure,
                            >(failure);
                        assert(lacks_link_first_at(content, captures, next, i, index, site_path));
                    },
                    Ok(rest) => {},
                }
            },
        }
    }
}

/// A text is rewritten exactly if every capture has a link. Otherwise the
/// first capture without one gives the failure, and no text is handed out.
pub proof fn law_first_failing_reference_decides(
    content: Seq<char>,
    captures: Seq<Capture>,
    index: Map<Seq<char>, Seq<char>>,
    site_path: Seq<char>,
)
    ensures
        match resolved(content, captures, index, site_path) {
            Ok(text) => forall|i: int|
                0 <= i < captures.len() ==> (#[trigger] link_at(
                    content,
                    captures,
                    i,
                    index,
                    site_path,
                )) is Ok,
            Err(failure) => exists|i: int| #[trigger]
                lacks_link_first_at(content, captures, 0, i, index, site_path) && link_at(
                    content,
                    captures,
                    i,
                    index,
                    site_path,
                ) == Err::<Seq<char>, Failure>(failure),
        },
{
    lemma_first_failing_capture(content, captures, 0, 0, index, site_path);
}

/// Two references whose names differ in case alone, with the same anchor or
/// none, have the same link, or fail alike.
pub proof fn law_case_is_ignored(
    first: Seq<char>,
    second: Seq<char>,
    index: Map<Seq<char>, Seq<char>>,
    site_path: Seq<char>,
)
    requires
        !is_malformed(first),
        !is_malformed(second),
        lowercase_of(reference_of(first).name) == lowercase_of(reference_of(second).name),
        reference_of(first).anchor == reference_of(second).anchor,
    ensures
        link_for(first, index, site_path) == link_for(second, index, site_path),
{
}

/// A reference to a name that the table lacks has no link: the failure
/// names it in lowercase.
pub proof fn law_unknown_name_fails(
    reference: Seq<char>,
    index: Map<Seq<char>, Seq<char>>,
    site_path: Seq<char>,
)
    requires
        !is_malformed(reference),
        !index.contains_key(lowercase_of(reference_of(reference).name)),
    ensures
        link_for(reference, index, site_path) == Err::<Seq<char>, Failure>(
            Failure::ChapterNotFound(lowercase_of(reference_of(reference).name)),
        ),
{
}

/// A site path given without its last `/` stands for the same site path as
/// the one given with it.
pub proof fn law_trailing_slash(site_url: Seq<char>, strict: Option<bool>)
    ensures
        with_trailing_slash(site_url).len() > 0,
        with_trailing_slash(site_url).last() == '/',
        with_trailing_slash(with_trailing_slash(site_url)) == with_trailing_slash(site_url),
        !(site_url.len() > 0 && site_url.last() == '/') ==> options_of(
            ConfigModel { site_url: Some(site_url), strict },
        ) == options_of(ConfigModel { site_url: Some(site_url + seq!['/']), strict }),
{
}

/// What a chapter enters into the table of names.
pub ghost struct Entry {
    /// The chapter's name in lowercase.
    pub name: Seq<char>,
    /// The path of the chapter's file.
    pub path: Seq<char>,
}

/// The name, in lowercase, and the path under which the `i`-th item enters
/// the table of names, if it is a chapter with a path.
pub open spec fn entry_at(items: Seq<ItemModel>, i: int) -> Option<Entry> {
    if 0 <= i < items.len() {
        match items[i] {
            ItemModel::Chapter(ChapterModel { name, path: Some(path), content }) => Some(
                Entry { name: lowercase_of(name), path },
            ),
            _ => None,
        }
    } else {
        None
    }
}

/// The name under which the `i`-th item enters the table. It is meant for
/// an item that enters.
pub open spec fn name_at(items: Seq<ItemModel>, i: int) -> Seq<char> {
    entry_at(items, i)->Some_0.name
}

/// The path with which the `i`-th item enters the table. It is meant for an
/// item that enters.
pub open spec fn path_at(items: Seq<ItemModel>, i: int) -> Seq<char> {
    entry_at(items, i)->Some_0.path
}

/// Whether the `i`-th item enters the table under `key`.
pub open spec fn enters_as(items: Seq<ItemModel>, i: int, key: Seq<char>) -> bool {
    entry_at(items, i) matches Some(entry) && entry.name == key
}

/// Whether the `j`-th item enters the table under a name that an item
/// before it has taken.
pub open spec fn clashes_at(items: Seq<ItemModel>, j: int) -> bool {
    entry_at(items, j) matches Some(entry) && exists|i: int|
        0 <= i < j && #[trigger] enters_as(items, i, entry.name)
}

/// Whether `index` holds the names under which the items before `next`
/// enter, and no others.
spec fn holds_names_before(
    items: Seq<ItemModel>,
    next: int,
    index: Map<Seq<char>, Seq<char>>,
) -> bool {
    forall|key: Seq<char>| #[trigger]
        index.contains_key(key) <==> exists|i: int|
            0 <= i < next && #[trigger] enters_as(items, i, key)
}

proof fn lemma_names_before_step(
    items: Seq<ItemModel>,
    next: int,
    index: Map<Seq<char>, Seq<char>>,
)
    requires
        0 <= next < items.len(),
        holds_names_before(items, next, index),
    ensures
        match entry_at(items, next) {
            Some(entry) => holds_names_before(items, next + 1, index.insert(entry.name, entry.path))
                && (index.contains_key(entry.name) <==> clashes_at(items, next)),
            None => holds_names_before(items, next + 1, index),
        },
{
    match entry_at(items, next) {
        Some(entry) => {
            let grown = index.insert(entry.name, entry.path);
            assert forall|key: Seq<char>| #[trigger]
                grown.contains_key(key) <==> exists|i: int|
                    0 <= i < next + 1 && #[trigger] enters_as(items, i, key) by {
                if grown.contains_key(key) {
                    if key == entry.name {
                        assert(enters_as(items, next, key));
                    } else {
                        assert(index.contains_key(key));
                        let i = choose|i: int| 0 <= i < next && #[trigger] enters_as(items, i, key);
                        assert(0 <= i < next + 1 && enters_as(items, i, key));
                    }
                }
                if exists|i: int| 0 <= i < next + 1 && #[trigger] enters_as(items, i, key) {
                    let i = choose|i: int| 0 <= i < next + 1 && #[trigger] enters_as(items, i, key);
                    if i < next {
                        assert(index.contains_key(key));
                    }
                }
            }
            assert(index.contains_key(entry.name) <==> clashes_at(items, next));
        },
        None => {
            assert forall|key: Seq<char>| #[trigger]
                index.contains_key(key) <==> exists|i: int|
                    0 <= i < next + 1 && #[trigger] enters_as(items, i, key) by {
                if index.contains_key(key) {
                    let i = choose|i: int| 0 <= i < next && #[trigger] enters_as(items, i, key);
                    assert(0 <= i < next + 1 && enters_as(items, i, key));
                }
                if exists|i: int| 0 <= i < next + 1 && #[trigger] enters_as(items, i, key) {
                    let i = choose|i: int| 0 <= i < next + 1 && #[trigger] enters_as(items, i, key);
                    assert(i < next);
                }
            }
        },
    }
}

proof fn lemma_strict_first_clash(
    items: Seq<ItemModel>,
    next: int,
    index: Map<Seq<char>, Seq<char>>,
    at: int,
)
    requires
        0 <= next <= at < items.len(),
        holds_names_before(items, next, index),
        clashes_at(items, at),
        forall|j: int| next <= j < at ==> !clashes_at(items, j),
    ensures
        indexed_from(items, next, true, index) == Err::<Map<Seq<char>, Seq<char>>, Failure>(
            Failure::DuplicateChapterNames(name_at(items, at)),
        ),
    decreases at - next,
{
    lemma_names_before_step(items, next, index);
    if next < at {
        match entry_at(items, next) {
            Some(entry) => {
                lemma_strict_first_clash(items, next + 1, index.insert(entry.name, entry.path), at);
            },
            None => {
                lemma_strict_first_clash(items, next + 1, index, at);
            },
        }
    }
}

proof fn lemma_strict_no_clash(
    items: Seq<ItemModel>,
    next: int,
    index: Map<Seq<char>, Seq<char>>,
)
    requires
        0 <= next <= items.len(),
        holds_names_before(items, next, index),
        forall|j: int| next <= j < items.len() ==> !clashes_at(items, j),
    ensures
        indexed_from(items, next, true, index) == indexed_from(items, next, false, index),
        indexed_from(items, next, true, index) is Ok,
    decreases items.len() - next,
{
    if next < items.len() {
        lemma_names_before_step(items, next, index);
        match entry_at(items, next) {
            Some(entry) => {
                lemma_strict_no_clash(items, next + 1, index.insert(entry.name, entry.path));
            },
            None => {
                lemma_strict_no_clash(items, next + 1, index);
            },
        }
    }
}

/// The table that is built without strict mode.
spec fn lenient_from(
    items: Seq<ItemModel>,
    next: int,
    index: Map<Seq<char>, Seq<char>>,
) -> Map<Seq<char>, Seq<char>> {
    indexed_from(items, next, false, index)->Ok_0
}

proof fn lemma_lenient(items: Seq<ItemModel>, next: int, index: Map<Seq<char>, Seq<char>>)
    requires
        0 <= next <= items.len(),
    ensures
        indexed_from(items, next, false, index) is Ok,
        forall|key: Seq<char>| #[trigger]
            index.contains_key(key) ==> lenient_from(items, next, index).contains_key(key)
                && lenient_from(items, next, index)[key] == index[key],
        forall|key: Seq<char>| #[trigger]
            lenient_from(items, next, index).contains_key(key) ==> index.contains_key(key)
                || exists|i: int|
                next <= i < items.len() && #[trigger] enters_as(items, i, key),
        forall|i: int, key: Seq<char>|
            next <= i < items.len() && #[trigger] enters_as(items, i, key) ==> lenient_from(
                items,
                next,
                index,
            ).contains_key(key),
        forall|i: int, key: Seq<char>|
            next <= i < items.len() && #[trigger] enters_as(items, i, key) && !index.contains_key(
                key,
            ) && (forall|j: int| next <= j < i ==> !#[trigger] enters_as(items, j, key))
                ==> lenient_from(items, next, index)[key] == path_at(items, i),
    decreases items.len() - next,
{
    if next < items.len() {
        let grown = match entry_at(items, next) {
            Some(entry) => if index.contains_key(entry.name) {
                index
            } else {
                index.insert(entry.name, entry.path)
            },
            None => index,
        };
        assert(indexed_from(items, next, false, index) == indexed_from(
            items,
            next + 1,
            false,
            grown,
        ));
        lemma_lenient(items, next + 1, grown);
        let built = lenient_from(items, next, index);
        assert(built == lenient_from(items, next + 1, grown));
        assert forall|key: Seq<char>| #[trigger] index.contains_key(key) implies built.contains_key(
            key,
        ) && built[key] == index[key] by {
            assert(grown.contains_key(key) && grown[key] == index[key]);
        }
        assert forall|key: Seq<char>| #[trigger] built.contains_key(key) implies index.contains_key(
            key,
        ) || exists|i: int| next <= i < items.len() && #[trigger] enters_as(items, i, key) by {
            if !grown.contains_key(key) {
                let i = choose|i: int|
                    next + 1 <= i < items.len() && #[trigger] enters_as(items, i, key);
                assert(next <= i < items.len() && enters_as(items, i, key));
            } else if !index.contains_key(key) {
                assert(enters_as(items, next, key));
            }
        }
        assert forall|i: int, key: Seq<char>|
            next <= i < items.len() && #[trigger] enters_as(items, i, key) implies built.contains_key(
            key,
        ) by {
            if i == next {
                assert(grown.contains_key(key));
            }
        }
        assert forall|i: int, key: Seq<char>|
            next <= i < items.len() && #[trigger] enters_as(items, i, key) && !index.contains_key(
                key,
            ) && (forall|j: int| next <= j < i ==> !#[trigger] enters_as(items, j, key))
                implies built[key] == path_at(items, i) by {
            if i > next {
                assert(!enters_as(items, next, key));
                assert(!grown.contains_key(key));
                assert forall|j: int| next + 1 <= j < i implies !#[trigger] enters_as(
                    items,
                    j,
                    key,
                ) by {}
            } else {
                assert(grown.contains_key(key));
                assert(grown[key] == path_at(items, i));
            }
        }
    }
}

/// In strict mode the table is not built once a chapter comes under a name
/// that an earlier chapter has taken: the failure names the first such
/// chapter, in lowercase.
pub proof fn law_strict_refuses_shared_name(items: Seq<ItemModel>, at: int)
    requires
        0 <= at < items.len(),
        clashes_at(items, at),
        forall|j: int| 0 <= j < at ==> !clashes_at(items, j),
    ensures
        index_of(items, true) == Err::<Map<Seq<char>, Seq<char>>, Failure>(
            Failure::DuplicateChapterNames(name_at(items, at)),
        ),
{
    lemma_strict_first_clash(items, 0, Map::empty(), at);
}

/// Whether two items enter the table under `name`.
pub open spec fn is_shared_name(items: Seq<ItemModel>, name: Seq<char>) -> bool {
    exists|i: int, j: int|
        0 <= i < j < items.len() && #[trigger] enters_as(items, i, name) && #[trigger] enters_as(
            items,
            j,
            name,
        )
}

/// Two chapters, both with a path, whose names are the same in lowercase
/// make the building of the table fail in strict mode, with a name that two
/// chapters share.
pub proof fn law_shared_name_fails(items: Seq<ItemModel>, first: int, second: int)
    requires
        0 <= first < second < items.len(),
        entry_at(items, first) is Some,
        entry_at(items, second) is Some,
        name_at(items, first) == name_at(items, second),
    ensures
        index_of(items, true) matches Err(Failure::DuplicateChapterNames(name))
            && is_shared_name(items, name),
{
    assert(enters_as(items, first, name_at(items, second)));
    assert(clashes_at(items, second));
    let at = lemma_first_clash(items, second);
    law_strict_refuses_shared_name(items, at);
    let name = name_at(items, at);
    let i = choose|i: int| 0 <= i < at && #[trigger] enters_as(items, i, name);
    assert(0 <= i < at <= second && enters_as(items, i, name) && enters_as(items, at, name));
    assert(index_of(items, true) == Err::<Map<Seq<char>, Seq<char>>, Failure>(
        Failure::DuplicateChapterNames(name),
    ));
    assert(is_shared_name(items, name));
}

/// The first item that clashes, given one that does.
proof fn lemma_first_clash(items: Seq<ItemModel>, some: int) -> (at: int)
    requires
        0 <= some < items.len(),
        clashes_at(items, some),
    ensures
        0 <= at <= some,
        clashes_at(items, at),
        forall|j: int| 0 <= j < at ==> !clashes_at(items, j),
    decreases some,
{
    if exists|j: int| 0 <= j < some && clashes_at(items, j) {
        let j = choose|j: int| 0 <= j < some && clashes_at(items, j);
        lemma_first_clash(items, j)
    } else {
        some
    }
}

/// Where no two chapters share a name, strict mode builds the table that is
/// built without it.
pub proof fn law_strict_without_shared_name(items: Seq<ItemModel>)
    requires
        forall|j: int| 0 <= j < items.len() ==> !clashes_at(items, j),
    ensures
        index_of(items, true) is Ok,
        index_of(items, true) == index_of(items, false),
{
    lemma_strict_no_clash(items, 0, Map::empty());
}

/// Without strict mode the table is always built. It holds the names of the
/// chapters that have a path, in lowercase, and no other name.
pub proof fn law_lenient_names(items: Seq<ItemModel>, name: Seq<char>)
    ensures
        index_of(items, false) matches Ok(built) && (built.contains_key(name) <==> exists|i: int|
            0 <= i < items.len() && #[trigger] enters_as(items, i, name)),
{
    lemma_lenient(items, 0, Map::empty());
    let built = lenient_from(items, 0, Map::empty());
    if exists|i: int| 0 <= i < items.len() && #[trigger] enters_as(items, i, name) {
        let i = choose|i: int| 0 <= i < items.len() && #[trigger] enters_as(items, i, name);
        assert(built.contains_key(name));
    }
}

/// Without strict mode, of the chapters that share a name the first one
/// gives the path.
pub proof fn law_first_chapter_wins(items: Seq<ItemModel>, at: int)
    requires
        0 <= at < items.len(),
        entry_at(items, at) is Some,
        forall|j: int| 0 <= j < at ==> !#[trigger] enters_as(items, j, name_at(items, at)),
    ensures
        index_of(items, false) matches Ok(built) && built.contains_key(name_at(items, at))
            && built[name_at(items, at)] == path_at(items, at),
{
    lemma_lenient(items, 0, Map::empty());
    assert(enters_as(items, at, name_at(items, at)));
}

/// Whether `table` holds, under the name of `duplicate` in lowercase, the
/// path that `duplicate` gives as the existing one.
pub open spec fn names_existing(
    table: Map<Seq<char>, Seq<char>>,
    duplicate: DuplicateModel,
) -> bool {
    table.contains_key(lowercase_of(duplicate.name)) && table[lowercase_of(duplicate.name)]
        == duplicate.existing_path
}

proof fn lemma_duplicates_in_table(
    items: Seq<ItemModel>,
    next: int,
    index: Map<Seq<char>, Seq<char>>,
)
    requires
        0 <= next <= items.len(),
    ensures
        forall|k: int|
            0 <= k < duplicates_from(items, next, index).len() ==> names_existing(
                lenient_from(items, next, index),
                #[trigger] duplicates_from(items, next, index)[k],
            ),
    decreases items.len() - next,
{
    if next < items.len() {
        let listed = duplicates_from(items, next, index);
        let table = lenient_from(items, next, index);
        match entry_at(items, next) {
            Some(entry) => {
                if index.contains_key(entry.name) {
                    lemma_duplicates_in_table(items, next + 1, index);
                    lemma_lenient(items, next + 1, index);
                    let rest = duplicates_from(items, next + 1, index);
                    assert(table == lenient_from(items, next + 1, index));
                    assert(listed.len() == rest.len() + 1);
                    assert forall|k: int| 0 <= k < listed.len() implies names_existing(
                        table,
                        #[trigger] listed[k],
                    ) by {
                        if k > 0 {
                            assert(listed[k] == rest[k - 1]);
                        } else {
                            assert(lowercase_of(listed[0].name) == entry.name);
                            assert(listed[0].existing_path == index[entry.name]);
                        }
                    }
                } else {
                    let grown = index.insert(entry.name, entry.path);
                    lemma_duplicates_in_table(items, next + 1, grown);
                    assert(table == lenient_from(items, next + 1, grown));
                    assert(listed == duplicates_from(items, next + 1, grown));
                }
            },
            None => {
                lemma_duplicates_in_table(items, next + 1, index);
                assert(table == lenient_from(items, next + 1, index));
                assert(listed == duplicates_from(items, next + 1, index));
            },
        }
    }
}

proof fn lemma_duplicates_are_clashes(
    items: Seq<ItemModel>,
    next: int,
    index: Map<Seq<char>, Seq<char>>,
)
    requires
        0 <= next <= items.len(),
        holds_names_before(items, next, index),
    ensures
        duplicates_from(items, next, index).len() == 0 <==> forall|j: int|
            next <= j < items.len() ==> !clashes_at(items, j),
    decreases items.len() - next,
{
    if next < items.len() {
        lemma_names_before_step(items, next, index);
        match entry_at(items, next) {
            Some(entry) => {
                if index.contains_key(entry.name) {
                    assert forall|key: Seq<char>| #[trigger]
                        index.contains_key(key) <==> index.insert(
                            entry.name,
                            entry.path,
                        ).contains_key(key) by {}
                    assert(holds_names_before(items, next + 1, index));
                    assert(clashes_at(items, next));
                } else {
                    lemma_duplicates_are_clashes(
                        items,
                        next + 1,
                        index.insert(entry.name, entry.path),
                    );
                }
            },
            None => {
                lemma_duplicates_are_clashes(items, next + 1, index);
            },
        }
    }
}

/// The chapters listed as duplicates are those that the table leaves out:
/// under the name of each, in lowercase, the table built without strict mode
/// holds the path that the listing gives as the existing one. Nothing is
/// listed exactly if no chapter comes under a name that is taken.
pub proof fn law_duplicates_match_the_table(items: Seq<ItemModel>)
    ensures
        index_of(items, false) is Ok,
        forall|k: int|
            0 <= k < duplicates_of(items).len() ==> names_existing(
                index_of(items, false)->Ok_0,
                #[trigger] duplicates_of(items)[k],
            ),
        duplicates_of(items).len() == 0 <==> forall|j: int|
            0 <= j < items.len() ==> !clashes_at(items, j),
{
    lemma_lenient(items, 0, Map::empty());
    lemma_duplicates_in_table(items, 0, Map::empty());
    lemma_duplicates_are_clashes(items, 0, Map::empty());
}

proof fn lemma_processed_from(
    items: Seq<ItemModel>,
    next: int,
    index: Map<Seq<char>, Seq<char>>,
    site_path: Seq<char>,
)
    requires
        0 <= next <= items.len(),
    ensures
        match processed_from(items, next, index, site_path) {
            Ok(processed) => processed.len() == items.len() - next && forall|i: int|
                next <= i < items.len() ==> #[trigger] processed_item(
                    items[i],
                    index,
                    site_path,
                ) == Ok::<ItemModel, Failure>(processed[i - next]),
            Err(failure) => exists|i: int|
                next <= i < items.len() && #[trigger] fails_first_at(
                    items,
                    next,
                    i,
                    index,
                    site_path,
                ) && processed_item(items[i], index, site_path) == Err::<ItemModel, Failure>(
                    failure,
                ),
        },
    decreases items.len() - next,
{
    if next < items.len() {
        lemma_processed_from(items, next + 1, index, site_path);
        match processed_item(items[next], index, site_path) {
            Err(failure) => {
                assert(fails_first_at(items, next, next, index, site_path));
            },
            Ok(item) => match processed_from(items, next + 1, index, site_path) {
                Err(failure) => {
                    let i = choose|i: int|
                        next + 1 <= i < items.len() && #[trigger] fails_first_at(
                            items,
                            next + 1,
                            i,
                            index,
                            site_path,
                        ) && processed_item(items[i], index, site_path) == Err::<
                            ItemModel,
                            Failure,
                        >(failure);
                    assert(fails_first_at(items, next, i, index, site_path));
                },
                Ok(rest) => {
                    let processed = seq![item] + rest;
                    assert forall|i: int| next <= i < items.len() implies #[trigger] processed_item(
                        items[i],
                        index,
                        site_path,
                    ) == Ok::<ItemModel, Failure>(processed[i - next]) by {
                        if i > next {
                            assert(processed[i - next] == rest[i - (next + 1)]);
                        }
                    }
                },
            },
        }
    }
}

/// Whether the `at`-th item is the first from the `from`-th on that cannot
/// be processed.
pub open spec fn fails_first_at(
    items: Seq<ItemModel>,
    from: int,
    at: int,
    index: Map<Seq<char>, Seq<char>>,
    site_path: Seq<char>,
) -> bool {
    &&& from <= at < items.len()
    &&& processed_item(items[at], index, site_path) is Err
    &&& forall|j: int| from <= j < at ==> (#[trigger] processed_item(items[j], index, site_path)) is Ok
}

/// A run that ends well hands back as many items as it was given, each in
/// its place: a chapter with its name and path and with its text processed,
/// any other item as it was.
pub proof fn law_book_keeps_its_shape(items: Seq<ItemModel>, config: ConfigModel)
    requires
        processed_book(items, config) is Ok,
    ensures
        index_of(items, options_of(config).strict_mode) is Ok,
        processed_book(items, config)->Ok_0.len() == items.len(),
        forall|i: int|
            0 <= i < items.len() ==> #[trigger] processed_item(
                items[i],
                index_of(items, options_of(config).strict_mode)->Ok_0,
                options_of(config).site_path,
            ) == Ok::<ItemModel, Failure>(processed_book(items, config)->Ok_0[i]),
{
    let options = options_of(config);
    lemma_processed_from(items, 0, index_of(items, options.strict_mode)->Ok_0, options.site_path);
}

/// A run fails exactly if the table of names cannot be built or the text of
/// some chapter cannot be processed. The table is built first; of the
/// chapters, the first that cannot be processed gives the failure.
pub proof fn law_first_failure_ends_the_run(items: Seq<ItemModel>, config: ConfigModel)
    requires
        processed_book(items, config) is Err,
    ensures
        match index_of(items, options_of(config).strict_mode) {
            Err(failure) => processed_book(items, config) == Err::<Seq<ItemModel>, Failure>(
                failure,
            ),
            Ok(index) => exists|i: int| #[trigger]
                fails_first_at(items, 0, i, index, options_of(config).site_path)
                    && processed_item(items[i], index, options_of(config).site_path) == Err::<
                    ItemModel,
                    Failure,
                >(processed_book(items, config)->Err_0),
        },
{
    let options = options_of(config);
    if index_of(items, options.strict_mode) is Ok {
        lemma_processed_from(
            items,
            0,
            index_of(items, options.strict_mode)->Ok_0,
            options.site_path,
        );
    }
}

/// Counting in two texts set one behind the other.
proof fn lemma_count_joined(front: Seq<char>, back: Seq<char>, c: char)
    ensures
        count_of(front + back, c) == count_of(front, c) + count_of(back, c),
    decreases back.len(),
{
    if back.len() == 0 {
        assert(front + back =~= front);
    } else {
        lemma_count_joined(front, back.drop_last(), c);
        assert((front + back).drop_last() =~= front + back.drop_last());
    }
}

/// A text holds `c` exactly if `c` is counted in it.
proof fn lemma_count_holds(s: Seq<char>, c: char)
    ensures
        count_of(s, c) > 0 <==> s.contains(c),
    decreases s.len(),
{
    if s.len() > 0 {
        lemma_count_holds(s.drop_last(), c);
        if s.contains(c) {
            let i = choose|i: int| 0 <= i < s.len() && s[i] == c;
            if i < s.len() - 1 {
                assert(s.drop_last()[i] == c);
            }
        }
        if s.drop_last().contains(c) {
            let i = choose|i: int| 0 <= i < s.drop_last().len() && s.drop_last()[i] == c;
            assert(s[i] == c);
        }
        if s.last() == c {
            assert(s[s.len() - 1] == c);
        }
    }
}

/// The only `#` of a reference parts its name from its anchor: neither
/// holds a `#`, and set together again they are the text that was read. A
/// reference without `#` is a name.
pub proof fn law_reference_parts(s: Seq<char>)
    requires
        !is_malformed(s),
    ensures
        !reference_of(s).name.contains('#'),
        match reference_of(s).anchor {
            Some(anchor) => !anchor.contains('#') && s == reference_of(s).name + seq!['#']
                + anchor,
            None => s == reference_of(s).name,
        },
{
    let at = first_index_of(s, '#');
    lemma_first_index_of(s, '#');
    let name = s.take(at);
    if name.contains('#') {
        let i = choose|i: int| 0 <= i < name.len() && name[i] == '#';
        assert(s[i] == '#');
    }
    if at < s.len() {
        let anchor = s.skip(at + 1);
        assert(s =~= name + seq!['#'] + anchor);
        lemma_count_joined(name + seq!['#'], anchor, '#');
        lemma_count_joined(name, seq!['#'], '#');
        lemma_count_holds(name, '#');
        lemma_count_holds(anchor, '#');
        assert(seq!['#'].drop_last() =~= Seq::<char>::empty());
        assert(count_of(seq!['#'], '#') == 1) by {
            reveal_with_fuel(count_of, 2);
        }
    } else {
        assert(s =~= name);
    }
}

/// A name without `#` reads as itself. With a `#` and an anchor behind it,
/// it reads as that name and that anchor, and the text is refused exactly
/// if the anchor holds a `#`.
pub proof fn law_reference_joined(name: Seq<char>, anchor: Seq<char>)
    requires
        !name.contains('#'),
    ensures
        !is_malformed(name),
        reference_of(name).name == name,
        reference_of(name).anchor is None,
        reference_of(name + seq!['#'] + anchor).name == name,
        reference_of(name + seq!['#'] + anchor).anchor == Some(anchor),
        is_malformed(name + seq!['#'] + anchor) <==> anchor.contains('#'),
{
    lemma_count_holds(name, '#');
    lemma_first_index_of(name, '#');
    if first_index_of(name, '#') < name.len() {
        assert(name.contains('#'));
    }
    assert(name.take(name.len() as int) =~= name);
    let s = name + seq!['#'] + anchor;
    lemma_first_index_of(s, '#');
    let at = first_index_of(s, '#');
    assert(s[name.len() as int] == '#');
    if at < name.len() {
        assert(name[at] == '#');
    }
    assert(at == name.len());
    assert(s.take(at) =~= name);
    assert(s.skip(at + 1) =~= anchor);
    lemma_count_joined(name + seq!['#'], anchor, '#');
    lemma_count_joined(name, seq!['#'], '#');
    lemma_count_holds(anchor, '#');
    assert(seq!['#'].drop_last() =~= Seq::<char>::empty());
    assert(count_of(seq!['#'], '#') == 1) by {
        reveal_with_fuel(count_of, 2);
    }
}

} // verus!
