//! The source of values: a table from keys to texts, read one key at a time.

use vstd::prelude::*;

verus! {

/// The table that a list of entries stands for: a later entry replaces an
/// earlier one under the same key.
pub open spec fn table(entries: Seq<(Seq<char>, Seq<char>)>) -> Map<Seq<char>, Seq<char>>
    decreases entries.len(),
{
    if entries.len() == 0 {
        Map::empty()
    } else {
        table(entries.drop_last()).insert(entries.last().0, entries.last().1)
    }
}

/// A source of values, looked up by key. A key is present with one text, or
/// absent.
pub struct Source {
    entries: Vec<(String, String)>,
}

impl View for Source {
    type V = Map<Seq<char>, Seq<char>>;

    closed spec fn view(&self) -> Map<Seq<char>, Seq<char>> {
        table(self.pairs())
    }
}

impl Source {
    /// The entries as pairs of texts.
    spec fn pairs(self) -> Seq<(Seq<char>, Seq<char>)> {
        Seq::new(self.entries@.len(), |i: int| (self.entries@[i].0@, self.entries@[i].1@))
    }

    /// A source in which every key is absent.
    pub fn new() -> (source: Source)
        ensures
            source@ == Map::<Seq<char>, Seq<char>>::empty(),
    {
        Source { entries: Vec::new() }
    }

    /// Makes `key` present with `value`; a value that the key had before is
    /// replaced.
    pub fn set(&mut self, key: &str, value: &str)
        ensures
            final(self)@ == old(self)@.insert(key@, value@),
    {
        let ghost before = self.pairs();
        self.entries.push((key.to_owned(), value.to_owned()));
        assert(self.pairs().drop_last() =~= before);
    }

    /// The text under `key`, if the key is present.
    pub fn get(&self, key: &str) -> (value: Option<&str>)
        ensures
            match value {
                Some(text) => self@.dom().contains(key@) && self@[key@] == text@,
                None => !self@.dom().contains(key@),
            },
    {
        let owned = key.to_owned();
        let mut left: usize = self.entries.len();
        assert(self.pairs().take(left as int) =~= self.pairs());
        while left > 0
            invariant
                left <= self.entries@.len(),
                owned@ == key@,
                self@.dom().contains(key@) == table(self.pairs().take(left as int)).dom().contains(
                    key@,
                ),
                self@.dom().contains(key@) ==> self@[key@] == table(
                    self.pairs().take(left as int),
                )[key@],
            decreases left,
        {
            assert(self.pairs().take(left as int).drop_last() =~= self.pairs().take(left - 1));
            left -= 1;
            if self.entries[left].0 == owned {
                return Some(self.entries[left].1.as_str());
            }
        }
        None
    }
}

} // verus!
