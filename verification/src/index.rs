//! The lookup table from the name of a chapter to the path of its file.

use vstd::prelude::*;

verus! {

/// One line of the table.
struct IndexEntry {
    name: String,
    path: String,
}

/// A table from names to paths in which every name stands once.
///
/// Its model is the map from each name to its path.
pub struct NameIndex {
    entries: Vec<IndexEntry>,
}

/// The names of `entries` differ from each other.
spec fn names_differ(entries: Seq<IndexEntry>) -> bool {
    forall|i: int, j: int|
        0 <= i < j < entries.len() ==> (#[trigger] entries[i]).name@ != (#[trigger] entries[j]).name@
}

/// The map that `entries` spell out.
spec fn map_of(entries: Seq<IndexEntry>) -> Map<Seq<char>, Seq<char>>
    decreases entries.len(),
{
    if entries.len() == 0 {
        Map::empty()
    } else {
        map_of(entries.drop_last()).insert(entries.last().name@, entries.last().path@)
    }
}

/// With names that differ, the map holds each entry, no other key, and as
/// many keys as there are entries.
proof fn lemma_map_of(entries: Seq<IndexEntry>)
    requires
        names_differ(entries),
    ensures
        forall|i: int|
            0 <= i < entries.len() ==> map_of(entries).contains_key(
                (#[trigger] entries[i]).name@,
            ) && map_of(entries)[entries[i].name@] == entries[i].path@,
        forall|k: Seq<char>| #[trigger]
            map_of(entries).contains_key(k) ==> exists|i: int|
                0 <= i < entries.len() && (#[trigger] entries[i]).name@ == k,
        map_of(entries).dom().finite(),
        map_of(entries).len() == entries.len(),
    decreases entries.len(),
{
    if entries.len() > 0 {
        let front = entries.drop_last();
        let last = entries.last();
        assert forall|i: int, j: int| 0 <= i < j < front.len() implies (#[trigger] front[i]).name@
            != (#[trigger] front[j]).name@ by {
            assert(front[i] == entries[i] && front[j] == entries[j]);
        }
        lemma_map_of(front);
        assert forall|i: int| 0 <= i < entries.len() implies map_of(entries).contains_key(
            (#[trigger] entries[i]).name@,
        ) && map_of(entries)[entries[i].name@] == entries[i].path@ by {
            if i < front.len() {
                assert(front[i] == entries[i]);
                assert(entries[i].name@ != entries[entries.len() - 1].name@);
            }
        }
        assert forall|k: Seq<char>| #[trigger] map_of(entries).contains_key(k) implies exists|
            i: int,
        |
            0 <= i < entries.len() && (#[trigger] entries[i]).name@ == k by {
            if k == last.name@ {
                assert(entries[entries.len() - 1].name@ == k);
            } else {
                assert(map_of(front).contains_key(k));
                let i = choose|i: int| 0 <= i < front.len() && (#[trigger] front[i]).name@ == k;
                assert(entries[i].name@ == k);
            }
        }
        if map_of(front).contains_key(last.name@) {
            let i = choose|i: int| 0 <= i < front.len() && (#[trigger] front[i]).name@ == last.name@;
            assert(entries[i].name@ == entries[entries.len() - 1].name@);
        }
        assert(map_of(entries).dom() =~= map_of(front).dom().insert(last.name@));
    }
}

impl View for NameIndex {
    type V = Map<Seq<char>, Seq<char>>;

    closed spec fn view(&self) -> Map<Seq<char>, Seq<char>> {
        map_of(self.entries@)
    }
}

impl NameIndex {
    #[verifier::type_invariant]
    spec fn names_stand_once(&self) -> bool {
        names_differ(self.entries@)
    }

    /// The table without a name.
    pub fn new() -> (index: NameIndex)
        ensures
            index@ == Map::<Seq<char>, Seq<char>>::empty(),
    {
        NameIndex { entries: Vec::new() }
    }

    /// Where `name` stands among the entries, if it does.
    fn position(&self, name: &String) -> (found: Option<usize>)
        ensures
            match found {
                Some(at) => at < self.entries.len() && self.entries[at as int].name@ == name@,
                None => forall|i: int|
                    0 <= i < self.entries.len() ==> (#[trigger] self.entries[i]).name@ != name@,
            },
    {
        let mut at: usize = 0;
        while at < self.entries.len()
            invariant
                at <= self.entries.len(),
                forall|i: int| 0 <= i < at ==> (#[trigger] self.entries[i]).name@ != name@,
            decreases self.entries.len() - at,
        {
            if self.entries[at].name == *name {
                return Some(at);
            }
            at += 1;
        }
        None
    }

    /// How many names the table holds.
    pub fn len(&self) -> (n: usize)
        ensures
            self@.dom().finite(),
            n == self@.len(),
    {
        proof {
            use_type_invariant(self);
            lemma_map_of(self.entries@);
        }
        self.entries.len()
    }

    /// Whether the table holds `name`.
    pub fn contains_key(&self, name: &String) -> (held: bool)
        ensures
            held == self@.contains_key(name@),
    {
        proof {
            use_type_invariant(self);
            lemma_map_of(self.entries@);
        }
        self.position(name).is_some()
    }

    /// The path that stands under `name`.
    pub fn get(&self, name: &String) -> (path: Option<&String>)
        ensures
            match path {
                Some(path) => self@.contains_key(name@) && path@ == self@[name@],
                None => !self@.contains_key(name@),
            },
    {
        proof {
            use_type_invariant(self);
            lemma_map_of(self.entries@);
        }
        match self.position(name) {
            Some(at) => Some(&self.entries[at].path),
            None => None,
        }
    }

    /// Puts `path` under `name`. A path that stood there before is replaced
    /// and handed back.
    pub fn insert(&mut self, name: String, path: String) -> (before: Option<String>)
        ensures
            final(self)@ == old(self)@.insert(name@, path@),
            match before {
                Some(before) => old(self)@.contains_key(name@) && before@ == old(self)@[name@],
                None => !old(self)@.contains_key(name@),
            },
    {
        proof {
            use_type_invariant(&*self);
            lemma_map_of(self.entries@);
        }
        let found = self.position(&name);
        let ghost before_entries = self.entries@;
        let mut entries: Vec<IndexEntry> = Vec::new();
        core::mem::swap(&mut entries, &mut self.entries);
        let before = match found {
            Some(at) => {
                let before = entries[at].path.clone();
                entries.set(at, IndexEntry { name, path });
                proof {
                    lemma_replaced(before_entries, entries@, at as int);
                }
                Some(before)
            },
            None => {
                entries.push(IndexEntry { name, path });
                proof {
                    assert(entries@.drop_last() =~= before_entries);
                }
                None
            },
        };
        self.entries = entries;
        before
    }
}

/// Replacing the path of one entry is an insertion under its name.
proof fn lemma_replaced(before: Seq<IndexEntry>, after: Seq<IndexEntry>, at: int)
    requires
        names_differ(before),
        0 <= at < before.len(),
        after.len() == before.len(),
        after[at].name@ == before[at].name@,
        forall|i: int| 0 <= i < before.len() && i != at ==> after[i] == before[i],
    ensures
        names_differ(after),
        map_of(after) == map_of(before).insert(after[at].name@, after[at].path@),
{
    assert forall|i: int, j: int| 0 <= i < j < after.len() implies (#[trigger] after[i]).name@ != (
    #[trigger] after[j]).name@ by {
        assert(before[i].name@ != before[j].name@);
    }
    lemma_map_of(before);
    lemma_map_of(after);
    let target = map_of(before).insert(after[at].name@, after[at].path@);
    assert forall|k: Seq<char>| map_of(after).contains_key(k) <==> target.contains_key(k) by {
        if map_of(after).contains_key(k) {
            let i = choose|i: int| 0 <= i < after.len() && (#[trigger] after[i]).name@ == k;
            assert(before[i].name@ == k);
        }
        if target.contains_key(k) && k != after[at].name@ {
            let i = choose|i: int| 0 <= i < before.len() && (#[trigger] before[i]).name@ == k;
            assert(after[i].name@ == k);
        }
    }
    assert forall|k: Seq<char>| map_of(after).contains_key(k) implies map_of(after)[k]
        == target[k] by {
        let i = choose|i: int| 0 <= i < after.len() && (#[trigger] after[i]).name@ == k;
        assert(before[i].name@ == k);
    }
    assert(map_of(after) =~= target);
}

} // verus!
