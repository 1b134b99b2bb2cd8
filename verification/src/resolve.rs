//! Rewriting a text: every placeholder gives way to the link it stands for.

use vstd::prelude::*;
use vstd::string::StringExecFns;
use vstd::utf8::*;

use crate::error::{Failure, ProcessorError};
use crate::index::NameIndex;
use crate::link::{is_malformed, reference_of, FileLink};
use crate::scan::{captures_fit, Capture};
use crate::text::{bytes_of, is_boundary, lowercase_of, slice, text_between, to_lowercase};

verus! {

/// The link to a chapter: the site path, the path of the chapter's file and,
/// where an anchor is given, a `#` and the anchor.
pub open spec fn link_text(
    site_path: Seq<char>,
    path: Seq<char>,
    anchor: Option<Seq<char>>,
) -> Seq<char> {
    match anchor {
        Some(anchor) => site_path + path + seq!['#'] + anchor,
        None => site_path + path,
    }
}

/// What the reference `reference` is replaced by: the link to the chapter
/// that it names, or the reason why there is none.
pub open spec fn link_for(
    reference: Seq<char>,
    index: Map<Seq<char>, Seq<char>>,
    site_path: Seq<char>,
) -> Result<Seq<char>, Failure> {
    let parsed = reference_of(reference);
    let key = lowercase_of(parsed.name);
    if is_malformed(reference) {
        Err(Failure::MalformedReference)
    } else if !index.contains_key(key) {
        Err(Failure::ChapterNotFound(key))
    } else {
        Ok(link_text(site_path, index[key], parsed.anchor))
    }
}

/// The text that is left of `content` once the captures from the `next`-th
/// on are replaced, from the byte offset `last` to the end.
///
/// A capture whose group took part is replaced by the link for the text of
/// the group; what lies between `last` and the capture is kept. A capture
/// without the group is passed over, and its text is kept with what follows.
/// The first capture that has no link decides the failure.
pub open spec fn resolved_from(
    content: Seq<char>,
    captures: Seq<Capture>,
    next: int,
    last: int,
    index: Map<Seq<char>, Seq<char>>,
    site_path: Seq<char>,
) -> Result<Seq<char>, Failure>
    decreases captures.len() - next,
{
    if next < 0 || next >= captures.len() {
        Ok(text_between(content, last, bytes_of(content).len() as int))
    } else {
        match captures[next].group {
            None => resolved_from(content, captures, next + 1, last, index, site_path),
            Some((from, to)) => match link_for(
                text_between(content, from as int, to as int),
                index,
                site_path,
            ) {
                Err(failure) => Err(failure),
                Ok(link) => match resolved_from(
                    content,
                    captures,
                    next + 1,
                    captures[next].end as int,
                    index,
                    site_path,
                ) {
                    Err(failure) => Err(failure),
                    Ok(rest) => Ok(
                        text_between(content, last, captures[next].start as int) + link + rest,
                    ),
                },
            },
        }
    }
}

/// The text `content` with every capture replaced by its link, or the
/// failure of the first capture that has none.
pub open spec fn resolved(
    content: Seq<char>,
    captures: Seq<Capture>,
    index: Map<Seq<char>, Seq<char>>,
    site_path: Seq<char>,
) -> Result<Seq<char>, Failure> {
    resolved_from(content, captures, 0, 0, index, site_path)
}

/// The model of what a rewriting returns.
pub open spec fn outcome(result: Result<String, ProcessorError>) -> Result<Seq<char>, Failure> {
    match result {
        Ok(text) => Ok(text@),
        Err(error) => Err(error@),
    }
}

/// What is still to come behind `done`: `done` and the rest, or the failure.
pub open spec fn followed_by(done: Seq<char>, rest: Result<Seq<char>, Failure>) -> Result<
    Seq<char>,
    Failure,
> {
    match rest {
        Ok(rest) => Ok(done + rest),
        Err(failure) => Err(failure),
    }
}

/// The link for `reference`, looked up in `chapter_names`.
pub fn resolve_reference(reference: &str, chapter_names: &NameIndex, site_path: &str) -> (link:
    Result<String, ProcessorError>)
    ensures
        outcome(link) == link_for(reference@, chapter_names@, site_path@),
{
    let file_link = match FileLink::from_string(reference) {
        Ok(file_link) => file_link,
        Err(error) => {
            return Err(error);
        },
    };
    let key = to_lowercase(file_link.name);
    match chapter_names.get(&key) {
        None => Err(ProcessorError::ChapterNotFound(key)),
        Some(path) => {
            let mut link = String::from_str(site_path);
            link.append(path.as_str());
            match file_link.anchor {
                Some(anchor) => {
                    proof {
                        reveal_strlit("#");
                        assert("#"@ =~= seq!['#']);
                    }
                    link.append("#");
                    link.append(anchor);
                },
                None => {},
            }
            Ok(link)
        },
    }
}

/// Rewrites `content`: each of `captures` whose group took part gives way
/// to the link for the text of its group, and all that stands around them is
/// kept. The first reference without a link ends the work, and nothing of
/// the text is handed out.
pub fn substitute(
    content: &str,
    captures: &Vec<Capture>,
    chapter_names: &NameIndex,
    site_path: &str,
) -> (rewritten: Result<String, ProcessorError>)
    requires
        captures_fit(content@, captures@),
    ensures
        outcome(rewritten) == resolved(content@, captures@, chapter_names@, site_path@),
{
    let mut processed = String::new();
    let mut last: usize = 0;
    let mut next: usize = 0;
    proof {
        encode_utf8_valid_utf8(content@);
        is_char_boundary_start_end_of_seq(bytes_of(content@));
        assert(processed@ + resolved_from(
            content@,
            captures@,
            0,
            0,
            chapter_names@,
            site_path@,
        )->Ok_0 =~= resolved_from(content@, captures@, 0, 0, chapter_names@, site_path@)->Ok_0);
    }
    while next < captures.len()
        invariant
            captures_fit(content@, captures@),
            next <= captures.len(),
            is_boundary(content@, last as int),
            forall|j: int| next <= j < captures.len() ==> last <= (#[trigger] captures[j]).start,
            resolved(content@, captures@, chapter_names@, site_path@) == followed_by(
                processed@,
                resolved_from(
                    content@,
                    captures@,
                    next as int,
                    last as int,
                    chapter_names@,
                    site_path@,
                ),
            ),
        decreases captures.len() - next,
    {
        let capture = captures[next];
        if let Some((from, to)) = capture.group {
            let link = match resolve_reference(slice(content, from, to), chapter_names, site_path) {
                Ok(link) => link,
                Err(error) => {
                    return Err(error);
                },
            };
            let ghost before = processed@;
            processed.append(slice(content, last, capture.start));
            processed.append(link.as_str());
            proof {
                let rest = resolved_from(
                    content@,
                    captures@,
                    next + 1,
                    capture.end as int,
                    chapter_names@,
                    site_path@,
                );
                if rest is Ok {
                    assert(before + (text_between(content@, last as int, capture.start as int)
                        + link@ + rest->Ok_0) =~= processed@ + rest->Ok_0);
                }
            }
            last = capture.end;
        }
        next += 1;
    }
    proof {
        encode_utf8_valid_utf8(content@);
        is_char_boundary_start_end_of_seq(bytes_of(content@));
    }
    processed.append(slice(content, last, content.as_bytes().len()));
    Ok(processed)
}

} // verus!
