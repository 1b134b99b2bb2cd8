//! References: what stands between the opening and the closing of a
//! placeholder.
//!
//! A reference names a chapter and may go on with a `#` and an anchor inside
//! that chapter's page. It holds at most one `#`.

use vstd::prelude::*;
use vstd::string::StrSliceExecFns;

use crate::error::ProcessorError;

verus! {

/// How many times `c` occurs in `s`.
pub open spec fn count_of(s: Seq<char>, c: char) -> nat
    decreases s.len(),
{
    if s.len() == 0 {
        0
    } else {
        count_of(s.drop_last(), c) + if s.last() == c {
            1nat
        } else {
            0nat
        }
    }
}

/// The index of the first `c` in `s`, or the length of `s` if it holds none.
pub open spec fn first_index_of(s: Seq<char>, c: char) -> int
    decreases s.len(),
{
    if s.len() == 0 || s[0] == c {
        0
    } else {
        1 + first_index_of(s.drop_first(), c)
    }
}

/// The model of a [`FileLink`].
pub ghost struct Reference {
    /// The name of the chapter, as written.
    pub name: Seq<char>,
    /// What follows the `#`, if there is one.
    pub anchor: Option<Seq<char>>,
}

/// Whether `s` is no reference, because it holds more than one `#`.
pub open spec fn is_malformed(s: Seq<char>) -> bool {
    count_of(s, '#') > 1
}

/// The reference that `s` spells: the name is what stands before the first
/// `#`, the anchor what stands behind it.
pub open spec fn reference_of(s: Seq<char>) -> Reference {
    let at = first_index_of(s, '#');
    Reference {
        name: s.take(at),
        anchor: if at < s.len() {
            Some(s.skip(at + 1))
        } else {
            None
        },
    }
}

/// A reference to a chapter, and to a place in it if an anchor is given.
pub struct FileLink<'a> {
    /// The name of the chapter, as written.
    pub name: &'a str,
    /// The anchor inside the chapter's page.
    pub anchor: Option<&'a str>,
}

impl<'a> View for FileLink<'a> {
    type V = Reference;

    open spec fn view(&self) -> Reference {
        Reference {
            name: self.name@,
            anchor: match self.anchor {
                Some(anchor) => Some(anchor@),
                None => None,
            },
        }
    }
}

/// `first_index_of` lies inside `s` or at its end, nothing before it is `c`,
/// and where it lies inside, `c` stands there.
pub proof fn lemma_first_index_of(s: Seq<char>, c: char)
    ensures
        0 <= first_index_of(s, c) <= s.len(),
        forall|i: int| 0 <= i < first_index_of(s, c) ==> s[i] != c,
        first_index_of(s, c) < s.len() ==> s[first_index_of(s, c)] == c,
    decreases s.len(),
{
    if s.len() == 0 || s[0] == c {
    } else {
        let rest = s.drop_first();
        lemma_first_index_of(rest, c);
        assert forall|i: int| 0 <= i < first_index_of(s, c) implies s[i] != c by {
            if i > 0 {
                assert(s[i] == rest[i - 1]);
            }
        }
    }
}

/// Counting in one more character.
proof fn lemma_count_step(s: Seq<char>, c: char, n: int)
    requires
        0 <= n < s.len(),
    ensures
        count_of(s.take(n + 1), c) == count_of(s.take(n), c) + if s[n] == c {
            1nat
        } else {
            0nat
        },
{
    assert(s.take(n + 1).drop_last() =~= s.take(n));
}

impl<'a> FileLink<'a> {
    /// Reads a reference.
    ///
    /// A text without `#` is the name of a chapter. A text with one `#` is a
    /// name, the `#`, and an anchor. A text with more is refused.
    pub fn from_string(string: &'a str) -> (parsed: Result<FileLink<'a>, ProcessorError>)
        ensures
            parsed is Err <==> is_malformed(string@),
            parsed matches Err(e) ==> e@ == crate::error::Failure::MalformedReference,
            parsed matches Ok(link) ==> link@ == reference_of(string@),
    {
        let total = string.unicode_len();
        let mut hashes: usize = 0;
        let mut first: usize = total;
        let mut index: usize = 0;
        for c in it: string.chars()
            invariant
                it.seq() == string@,
                total == string@.len(),
                index == it.index(),
                hashes == count_of(string@.take(index as int), '#'),
                hashes <= index,
                hashes == 0 ==> first == total,
                hashes == 0 ==> forall|i: int| 0 <= i < index ==> string@[i] != '#',
                hashes > 0 ==> first < index && string@[first as int] == '#' && forall|i: int|
                    0 <= i < first ==> string@[i] != '#',
        {
            proof {
                lemma_count_step(string@, '#', index as int);
            }
            if c == '#' {
                if hashes == 0 {
                    first = index;
                }
                hashes += 1;
            }
            index += 1;
        }
        proof {
            assert(string@.take(index as int) =~= string@);
            lemma_first_index_of(string@, '#');
            let at = first_index_of(string@, '#');
            if hashes == 0 {
                if at < total {
                    assert(string@[at] == '#');
                }
            } else {
                if at < first {
                    assert(string@[at] == '#');
                }
            }
            assert(at == first);
        }
        if hashes > 1 {
            return Err(ProcessorError::MalformedReference);
        }
        let name = string.substring_char(0, first);
        proof {
            assert(string@.subrange(0, first as int) =~= string@.take(first as int));
        }
        if hashes == 1 {
            let anchor = string.substring_char(first + 1, total);
            proof {
                assert(string@.subrange(first + 1, total as int) =~= string@.skip(first + 1));
            }
            Ok(FileLink { name, anchor: Some(anchor) })
        } else {
            Ok(FileLink { name, anchor: None })
        }
    }
}

} // verus!
