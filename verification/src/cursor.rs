//! The pagination cursor: a small string-keyed map that a client sends back to
//! continue a listing where the previous page ended.

use vstd::prelude::*;

verus! {

/// The map that a list of entries denotes: a later entry for a key overrides
/// an earlier one.
pub open spec fn entries_map(entries: Seq<(String, String)>) -> Map<Seq<char>, Seq<char>>
    decreases entries.len(),
{
    if entries.len() == 0 {
        Map::empty()
    } else {
        entries_map(entries.drop_last()).insert(entries.last().0@, entries.last().1@)
    }
}

/// A key absent from every entry is absent from the map; the last entry with
/// a key gives its value.
proof fn lemma_entries_map_last(entries: Seq<(String, String)>, key: Seq<char>, j: int)
    requires
        -1 <= j < entries.len(),
        forall|q: int| j < q < entries.len() ==> (#[trigger] entries[q]).0@ != key,
        j >= 0 ==> entries[j].0@ == key,
    ensures
        j < 0 ==> !entries_map(entries).contains_key(key),
        j >= 0 ==> entries_map(entries).contains_key(key) && entries_map(entries)[key]
            == entries[j].1@,
    decreases entries.len(),
{
    if entries.len() > 0 && j < entries.len() - 1 {
        let init = entries.drop_last();
        assert forall|q: int| j < q < init.len() implies (#[trigger] init[q]).0@ != key by {
            assert(init[q] == entries[q]);
        }
        lemma_entries_map_last(init, key, j);
        assert(entries.last() == entries[entries.len() - 1]);
    }
}

/// Rewriting the last entry of a key sets that key in the map.
proof fn lemma_entries_map_update(
    entries: Seq<(String, String)>,
    j: int,
    key: String,
    value: String,
)
    requires
        0 <= j < entries.len(),
        entries[j].0@ == key@,
        forall|q: int| j < q < entries.len() ==> (#[trigger] entries[q]).0@ != key@,
    ensures
        entries_map(entries.update(j, (key, value))) == entries_map(entries).insert(key@, value@),
    decreases entries.len(),
{
    let updated = entries.update(j, (key, value));
    if j == entries.len() - 1 {
        assert(updated.drop_last() =~= entries.drop_last());
        assert(entries_map(updated) =~= entries_map(entries).insert(key@, value@));
    } else {
        let init = entries.drop_last();
        assert forall|q: int| j < q < init.len() implies (#[trigger] init[q]).0@ != key@ by {
            assert(init[q] == entries[q]);
        }
        lemma_entries_map_update(init, j, key, value);
        assert(updated.drop_last() =~= init.update(j, (key, value)));
        assert(updated.last() == entries.last());
        assert(entries.last().0@ != key@) by {
            assert(entries.last() == entries[entries.len() - 1]);
        }
        assert(entries_map(updated) =~= entries_map(entries).insert(key@, value@));
    }
}

/// A listing cursor: named positions (such as the id of the last transaction
/// or block already sent) that let the next request continue after them.
pub struct Cursor {
    entries: Vec<(String, String)>,
}

impl View for Cursor {
    type V = Map<Seq<char>, Seq<char>>;

    closed spec fn view(&self) -> Map<Seq<char>, Seq<char>> {
        entries_map(self.entries@)
    }
}

impl Cursor {
    /// An empty cursor.
    pub fn new() -> (cursor: Cursor)
        ensures
            cursor@ == Map::<Seq<char>, Seq<char>>::empty(),
    {
        Cursor { entries: Vec::new() }
    }

    /// The value recorded under `key`, if any.
    pub fn get(&self, key: String) -> (value: Option<String>)
        ensures
            value is Some == self@.contains_key(key@),
            value matches Some(v) ==> v@ == self@[key@],
    {
        let mut i = self.entries.len();
        while i > 0
            invariant
                i <= self.entries.len(),
                forall|q: int| i <= q < self.entries.len() ==> (#[trigger] self.entries@[q]).0@
                    != key@,
            decreases i,
        {
            i = i - 1;
            if self.entries[i].0 == key {
                proof {
                    lemma_entries_map_last(self.entries@, key@, i as int);
                }
                return Some(self.entries[i].1.clone());
            }
        }
        proof {
            lemma_entries_map_last(self.entries@, key@, -1);
        }
        None
    }

    /// Records `value` under `key`, replacing what was recorded there.
    pub fn insert(&mut self, key: String, value: String)
        ensures
            final(self)@ == old(self)@.insert(key@, value@),
    {
        let mut i = self.entries.len();
        while i > 0
            invariant
                i <= self.entries.len(),
                self.entries@ == old(self).entries@,
                forall|q: int| i <= q < self.entries.len() ==> (#[trigger] self.entries@[q]).0@
                    != key@,
            decreases i,
        {
            i = i - 1;
            if self.entries[i].0 == key {
                proof {
                    lemma_entries_map_update(self.entries@, i as int, key, value);
                }
                self.entries.set(i, (key, value));
                return;
            }
        }
        proof {
            lemma_entries_map_last(self.entries@, key@, -1);
            assert(self.entries@.push((key, value)).drop_last() =~= self.entries@);
        }
        self.entries.push((key, value));
    }

    /// The recorded entries; a later entry for a key overrides an earlier one.
    pub fn entries(&self) -> (entries: &Vec<(String, String)>)
        ensures
            entries_map(entries@) == self@,
    {
        &self.entries
    }
}

} // verus!
