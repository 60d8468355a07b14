use vstd::prelude::*;

use crate::parser::str_eq;

verus! {

/// A map keyed by strings. A later `insert` of a key replaces what an
/// earlier one stored.
#[derive(Debug)]
pub struct StringMap<V> {
    entries: Vec<(String, V)>,
}

/// The map that a sequence of insertions builds, the later ones winning.
pub open spec fn entries_map<V: View>(entries: Seq<(String, V)>) -> Map<Seq<char>, V::V>
    decreases entries.len(),
{
    if entries.len() == 0 {
        Map::empty()
    } else {
        let last = entries.last();
        entries_map(entries.drop_last()).insert(last.0@, last.1@)
    }
}

impl<V: View> View for StringMap<V> {
    type V = Map<Seq<char>, V::V>;

    closed spec fn view(&self) -> Map<Seq<char>, V::V> {
        entries_map(self.entries@)
    }
}

proof fn lemma_entries_map_finite<V: View>(entries: Seq<(String, V)>)
    ensures
        entries_map(entries).dom().finite(),
        entries.len() == 0 <==> entries_map(entries).dom().len() == 0,
    decreases entries.len(),
{
    if entries.len() > 0 {
        lemma_entries_map_finite(entries.drop_last());
        let m = entries_map(entries.drop_last());
        let k = entries.last().0@;
        assert(entries_map(entries).dom() == m.dom().insert(k));
        assert(entries_map(entries).dom().contains(k));
    }
}

impl<V: View> StringMap<V> {
    pub fn new() -> (m: Self)
        ensures
            m@ == Map::<Seq<char>, V::V>::empty(),
    {
        StringMap { entries: Vec::new() }
    }

    /// Stores `value` under `key`, replacing what was stored there.
    pub fn insert(&mut self, key: String, value: V)
        ensures
            final(self)@ == old(self)@.insert(key@, value@),
    {
        let ghost old_entries = self.entries@;
        self.entries.push((key, value));
        assert(self.entries@.drop_last() =~= old_entries);
    }

    /// The value stored under `key`, if any.
    pub fn get(&self, key: &str) -> (r: Option<&V>)
        ensures
            match r {
                Some(v) => self@.contains_key(key@) && v@ == self@[key@],
                None => !self@.contains_key(key@),
            },
    {
        let mut i = self.entries.len();
        while i > 0
            invariant
                i <= self.entries@.len(),
                forall|k: int|
                    i <= k < self.entries@.len() ==> #[trigger] self.entries@[k].0@ != key@,
            decreases i,
        {
            let e = &self.entries[i - 1];
            if str_eq(e.0.as_str(), key) {
                proof {
                    lemma_entries_map_suffix(self.entries@, i as int, key@);
                }
                return Some(&e.1);
            }
            i = i - 1;
        }
        proof {
            lemma_entries_map_absent(self.entries@, key@);
        }
        None
    }

    /// Whether no key is stored.
    pub fn is_empty(&self) -> (r: bool)
        ensures
            r == (self@.dom().len() == 0),
            self@.dom().finite(),
    {
        proof {
            lemma_entries_map_finite(self.entries@);
        }
        self.entries.len() == 0
    }
}

/// The entry at index `i - 1` holds `key`, and no later one does: the map
/// holds that entry's value under `key`.
proof fn lemma_entries_map_suffix<V: View>(entries: Seq<(String, V)>, i: int, key: Seq<char>)
    requires
        0 < i <= entries.len(),
        entries[i - 1].0@ == key,
        forall|k: int| i <= k < entries.len() ==> #[trigger] entries[k].0@ != key,
    ensures
        entries_map(entries).contains_key(key),
        entries_map(entries)[key] == entries[i - 1].1@,
    decreases entries.len(),
{
    if entries.len() > i {
        lemma_entries_map_suffix(entries.drop_last(), i, key);
    }
}

proof fn lemma_entries_map_absent<V: View>(entries: Seq<(String, V)>, key: Seq<char>)
    requires
        forall|k: int| 0 <= k < entries.len() ==> #[trigger] entries[k].0@ != key,
    ensures
        !entries_map(entries).contains_key(key),
    decreases entries.len(),
{
    if entries.len() > 0 {
        lemma_entries_map_absent(entries.drop_last(), key);
    }
}

} // verus!
