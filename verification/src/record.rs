//! A record: a mapping from attribute name to value.
//!
//! An attribute that is absent from the mapping is null.

use crate::attribute::{AttributeValue, Value};
use vstd::prelude::*;
use vstd::std_specs::cmp::PartialEqSpecImpl;

verus! {

/// The mapping that a list of name-value pairs denotes. Where a name occurs
/// more than once, the pair nearest the end of the list counts.
pub open spec fn entries_view(entries: Seq<(String, AttributeValue)>) -> Map<Seq<char>, Value>
    decreases entries.len(),
{
    if entries.len() == 0 {
        Map::empty()
    } else {
        entries_view(entries.drop_last()).insert(entries.last().0@, entries.last().1@)
    }
}

/// Every name in the mapping is the name of some pair of the list.
pub proof fn lemma_entries_view_dom(entries: Seq<(String, AttributeValue)>, name: Seq<char>)
    ensures
        entries_view(entries).contains_key(name) <==> exists|i: int|
            0 <= i < entries.len() && (#[trigger] entries[i]).0@ == name,
    decreases entries.len(),
{
    if entries.len() > 0 {
        let front = entries.drop_last();
        lemma_entries_view_dom(front, name);
        if entries_view(entries).contains_key(name) {
            if entries.last().0@ == name {
                assert(entries[entries.len() - 1].0@ == name);
            } else {
                let i = choose|i: int| 0 <= i < front.len() && (#[trigger] front[i]).0@ == name;
                assert(entries[i].0@ == name);
            }
        }
        if exists|i: int| 0 <= i < entries.len() && (#[trigger] entries[i]).0@ == name {
            let i = choose|i: int| 0 <= i < entries.len() && (#[trigger] entries[i]).0@ == name;
            if i < front.len() {
                assert(front[i].0@ == name);
            }
        }
    }
}

/// Whether `name` has a value in `b`, the one it has in `a`.
pub open spec fn agrees_at(a: Map<Seq<char>, Value>, b: Map<Seq<char>, Value>, name: Seq<char>) -> bool {
    b.contains_key(name) && b[name] == a[name]
}

/// Whether every name with a value in `a` has the same value in `b`.
pub open spec fn map_included(a: Map<Seq<char>, Value>, b: Map<Seq<char>, Value>) -> bool {
    forall|name: Seq<char>| #[trigger] a.contains_key(name) ==> agrees_at(a, b, name)
}

/// A mapping from attribute name to value.
#[derive(Debug)]
pub struct Record {
    entries: Vec<(String, AttributeValue)>,
}

impl View for Record {
    type V = Map<Seq<char>, Value>;

    closed spec fn view(&self) -> Map<Seq<char>, Value> {
        entries_view(self.entries@)
    }
}

impl Record {
    /// The empty record: every attribute is null.
    pub fn new() -> (record: Record)
        ensures
            record@ == Map::<Seq<char>, Value>::empty(),
    {
        Record { entries: Vec::new() }
    }

    /// Whether no attribute has a value.
    pub fn is_empty(&self) -> (empty: bool)
        ensures
            empty == (self@ == Map::<Seq<char>, Value>::empty()),
    {
        let empty = self.entries.len() == 0;
        proof {
            if !empty {
                let last = self.entries@.last();
                assert(self@.contains_key(last.0@));
            }
        }
        empty
    }

    /// Looks up the value of an attribute.
    pub fn get(&self, name: &str) -> (found: Option<&AttributeValue>)
        ensures
            match found {
                Some(value) => self@.contains_key(name@) && self@[name@] == value@,
                None => !self@.contains_key(name@),
            },
    {
        let key: String = name.to_owned();
        let mut i: usize = self.entries.len();
        proof {
            assert(self.entries@.take(i as int) == self.entries@);
        }
        while i > 0
            invariant
                i <= self.entries@.len(),
                key@ == name@,
                self@.contains_key(name@) == entries_view(
                    self.entries@.take(i as int),
                ).contains_key(name@),
                self@.contains_key(name@) ==> self@[name@] == entries_view(
                    self.entries@.take(i as int),
                )[name@],
            decreases i,
        {
            proof {
                assert(self.entries@.take(i as int).drop_last() == self.entries@.take(i - 1));
            }
            i -= 1;
            if self.entries[i].0 == key {
                return Some(&self.entries[i].1);
            }
        }
        None
    }

    /// Whether an attribute has a value.
    pub fn contains_key(&self, name: &str) -> (present: bool)
        ensures
            present == self@.contains_key(name@),
    {
        self.get(name).is_some()
    }

    /// Takes the value of an attribute away, leaving the attribute null, and
    /// returns the value it had.
    pub fn remove(&mut self, name: &str) -> (removed: Option<AttributeValue>)
        ensures
            final(self)@ == old(self)@.remove(name@),
            match removed {
                Some(value) => old(self)@.contains_key(name@) && old(self)@[name@] == value@,
                None => !old(self)@.contains_key(name@),
            },
    {
        let key: String = name.to_owned();
        let mut rest: Vec<(String, AttributeValue)> = Vec::new();
        core::mem::swap(&mut self.entries, &mut rest);
        let ghost given = rest@;
        // Turn the list round, so that its pairs can be taken off in their order.
        let mut reversed: Vec<(String, AttributeValue)> = Vec::new();
        while rest.len() > 0
            invariant
                rest@.len() + reversed@.len() == given.len(),
                rest@ == given.take(rest@.len() as int),
                forall|j: int|
                    0 <= j < reversed@.len() ==> reversed@[j] == given[given.len() - 1 - j],
            decreases rest@.len(),
        {
            let pair = rest.pop().unwrap();
            reversed.push(pair);
        }
        let mut removed: Option<AttributeValue> = None;
        let ghost mut done: int = 0;
        while reversed.len() > 0
            invariant
                key@ == name@,
                0 <= done <= given.len(),
                reversed@.len() + done == given.len(),
                forall|j: int|
                    0 <= j < reversed@.len() ==> reversed@[j] == given[given.len() - 1 - j],
                self@ == entries_view(given.take(done)).remove(name@),
                match removed {
                    Some(value) => entries_view(given.take(done)).contains_key(name@)
                        && entries_view(given.take(done))[name@] == value@,
                    None => !entries_view(given.take(done)).contains_key(name@),
                },
            decreases reversed@.len(),
        {
            let pair = reversed.pop().unwrap();
            proof {
                assert(pair == given[done]);
                assert(given.take(done + 1).drop_last() == given.take(done));
                assert(given.take(done + 1).last() == given[done]);
            }
            let ghost before = self.entries@;
            if pair.0 == key {
                removed = Some(pair.1);
                proof {
                    assert(entries_view(given.take(done + 1)).remove(name@) == entries_view(
                        given.take(done),
                    ).remove(name@));
                }
            } else {
                self.entries.push(pair);
                proof {
                    assert(self.entries@.drop_last() == before);
                    assert(entries_view(given.take(done + 1)).remove(name@) == entries_view(
                        given.take(done),
                    ).remove(name@).insert(pair.0@, pair.1@));
                }
            }
            proof {
                done = done + 1;
            }
        }
        proof {
            assert(given.take(done) == given);
        }
        removed
    }

    /// Gives an attribute a value, and returns the value it had before.
    pub fn insert(&mut self, name: String, value: AttributeValue) -> (previous: Option<
        AttributeValue,
    >)
        ensures
            final(self)@ == old(self)@.insert(name@, value@),
            match previous {
                Some(before) => old(self)@.contains_key(name@) && old(self)@[name@] == before@,
                None => !old(self)@.contains_key(name@),
            },
    {
        let previous = self.remove(name.as_str());
        let ghost before = self.entries@;
        self.entries.push((name, value));
        proof {
            assert(self.entries@.drop_last() == before);
            assert(old(self)@.remove(name@).insert(name@, value@) == old(self)@.insert(
                name@,
                value@,
            ));
        }
        previous
    }

    /// Gives the record up for a list of name-value pairs that denotes it.
    pub fn into_entries(self) -> (entries: Vec<(String, AttributeValue)>)
        ensures
            entries_view(entries@) == self@,
    {
        self.entries
    }

    /// Whether every pair of `self` is in `other` with the same value.
    fn included_in(&self, other: &Record) -> (included: bool)
        ensures
            included == map_included(self@, other@),
    {
        let mut i: usize = 0;
        while i < self.entries.len()
            invariant
                i <= self.entries@.len(),
                forall|j: int|
                    0 <= j < i ==> other@.contains_key((#[trigger] self.entries@[j]).0@)
                        && other@[self.entries@[j].0@] == self@[self.entries@[j].0@],
            decreases self.entries@.len() - i,
        {
            let name = self.entries[i].0.as_str();
            proof {
                lemma_entries_view_dom(self.entries@, name@);
            }
            let mine = self.get(name);
            let theirs = other.get(name);
            let same = match (mine, theirs) {
                (Some(a), Some(b)) => a.same_as(b),
                _ => false,
            };
            if !same {
                proof {
                    assert(self@.contains_key(name@));
                    assert(!agrees_at(self@, other@, name@));
                }
                return false;
            }
            i += 1;
        }
        proof {
            assert forall|name: Seq<char>| #[trigger] self@.contains_key(name) implies agrees_at(
                self@,
                other@,
                name,
            ) by {
                lemma_entries_view_dom(self.entries@, name);
                let j = choose|j: int|
                    0 <= j < self.entries@.len() && (#[trigger] self.entries@[j]).0@ == name;
                assert(other@.contains_key(self.entries@[j].0@));
            }
        }
        true
    }
}

impl PartialEq for Record {
    fn eq(&self, other: &Record) -> (same: bool) {
        let same = self.included_in(other) && other.included_in(self);
        proof {
            if same {
                assert forall|name: Seq<char>| self@.contains_key(name) == other@.contains_key(
                    name,
                ) by {
                    if self@.contains_key(name) {
                        assert(agrees_at(self@, other@, name));
                    }
                    if other@.contains_key(name) {
                        assert(agrees_at(other@, self@, name));
                    }
                }
                assert(self@ =~= other@);
            }
        }
        same
    }
}

impl PartialEqSpecImpl for Record {
    open spec fn obeys_eq_spec() -> bool {
        true
    }

    open spec fn eq_spec(&self, other: &Record) -> bool {
        self@ == other@
    }
}

} // verus!
