//! The frequency map: how often each key was counted, and in which order the
//! keys were first seen.

use crate::text::{trim, trimmed};
use vstd::hash_map::StringHashMap;
use vstd::multiset::*;
use vstd::prelude::*;

verus! {

/// `known`, followed by the keys of `more` that are new, each where it first occurs.
pub open spec fn keys_added(known: Seq<Seq<char>>, more: Seq<Seq<char>>) -> Seq<Seq<char>>
    decreases more.len(),
{
    if more.len() == 0 {
        known
    } else {
        let before = keys_added(known, more.drop_last());
        if before.contains(more.last()) {
            before
        } else {
            before.push(more.last())
        }
    }
}

/// A mapping from key to number of occurrences.
///
/// Its view is the multiset of everything that was counted: the count of a key is
/// its multiplicity. The keys are kept in the order in which they were first
/// counted, which is the order in which they are handed out.
pub struct FrequencyMap {
    table: Table,
}

/// The keys with their counts, in the order in which the keys were first counted,
/// and for each key the place at which it stands.
struct Table {
    entries: Vec<(String, u64)>,
    index: StringHashMap<usize>,
}

spec fn entry_keys(entries: Seq<(String, u64)>) -> Seq<Seq<char>> {
    entries.map_values(|e: (String, u64)| e.0@)
}

spec fn entry_tally(entries: Seq<(String, u64)>) -> Multiset<Seq<char>>
    decreases entries.len(),
{
    if entries.len() == 0 {
        Multiset::empty()
    } else {
        entry_tally(entries.drop_last()).update(entries.last().0@, entries.last().1 as nat)
    }
}

/// With no key listed twice, each listed key has the count that stands beside it,
/// and every other key has none.
proof fn lemma_entry_tally(entries: Seq<(String, u64)>)
    requires
        entry_keys(entries).no_duplicates(),
    ensures
        forall|i: int|
            0 <= i < entries.len() ==> entry_tally(entries).count(#[trigger] entries[i].0@)
                == entries[i].1,
        forall|k: Seq<char>|
            !entry_keys(entries).contains(k) ==> #[trigger] entry_tally(entries).count(k) == 0,
    decreases entries.len(),
{
    broadcast use {lemma_update_same, lemma_update_different, group_multiset_axioms};

    if entries.len() > 0 {
        let init = entries.drop_last();
        let last = entries.last();
        let keys = entry_keys(entries);
        assert(entry_keys(init) =~= keys.drop_last());
        assert forall|i: int, j: int|
            0 <= i < init.len() && 0 <= j < init.len() && i != j implies entry_keys(init)[i]
            != entry_keys(init)[j] by {
            assert(keys[i] != keys[j]);
        }
        lemma_entry_tally(init);
        assert forall|i: int| 0 <= i < entries.len() implies entry_tally(entries).count(
            #[trigger] entries[i].0@,
        ) == entries[i].1 by {
            if i < init.len() {
                assert(keys[i] != keys[entries.len() - 1]);
                assert(init[i] == entries[i]);
            }
        }
        assert forall|k: Seq<char>| !entry_keys(entries).contains(k) implies #[trigger] entry_tally(
            entries,
        ).count(k) == 0 by {
            assert(keys[entries.len() - 1] == last.0@);
            assert(last.0@ != k);
            if entry_keys(init).contains(k) {
                let i = choose|i: int| 0 <= i < init.len() && entry_keys(init)[i] == k;
                assert(keys[i] == k);
            }
            assert(entry_tally(init).count(k) == 0);
        }
    }
}

impl Table {
    spec fn wf(&self) -> bool {
        &&& entry_keys(self.entries@).no_duplicates()
        &&& forall|i: int| 0 <= i < self.entries@.len() ==> (#[trigger] self.entries@[i]).1 >= 1
        &&& forall|i: int|
            0 <= i < self.entries@.len() ==> self.index@.contains_key(
                #[trigger] entry_keys(self.entries@)[i],
            ) && self.index@[entry_keys(self.entries@)[i]] == i
        &&& forall|k: Seq<char>| #[trigger]
            self.index@.contains_key(k) ==> self.index@[k] < self.entries@.len() && entry_keys(
                self.entries@,
            )[self.index@[k] as int] == k
    }

    fn new() -> (table: Table)
        ensures
            table.wf(),
            table.entries@ == Seq::<(String, u64)>::empty(),
    {
        let table = Table { entries: Vec::new(), index: StringHashMap::new() };
        assert(entry_keys(table.entries@) =~= Seq::<Seq<char>>::empty());
        table
    }
}

impl View for FrequencyMap {
    type V = Multiset<Seq<char>>;

    closed spec fn view(&self) -> Multiset<Seq<char>> {
        entry_tally(self.table.entries@)
    }
}

impl FrequencyMap {
    #[verifier::type_invariant]
    spec fn wf(self) -> bool {
        self.table.wf()
    }

    /// The keys with a count above zero, in the order in which they were first
    /// counted.
    pub closed spec fn keys(&self) -> Seq<Seq<char>> {
        entry_keys(self.table.entries@)
    }

    /// A map in which nothing has been counted.
    pub fn new() -> (m: Self)
        ensures
            m@ == Multiset::<Seq<char>>::empty(),
            m.keys() == Seq::<Seq<char>>::empty(),
    {
        let m = FrequencyMap { table: Table::new() };
        assert(m.keys() =~= Seq::<Seq<char>>::empty());
        m
    }

    /// The number of distinct keys. No key is listed twice, and the keys listed
    /// are those that were counted at least once.
    pub fn len(&self) -> (n: usize)
        ensures
            n == self.keys().len(),
            self.keys().no_duplicates(),
            forall|k: Seq<char>|
                #![trigger self.keys().contains(k)]
                #![trigger self@.count(k)]
                self.keys().contains(k) <==> self@.count(k) > 0,
    {
        proof {
            use_type_invariant(self);
            lemma_entry_tally(self.table.entries@);
            assert forall|k: Seq<char>| self.keys().contains(k) implies self@.count(k) > 0 by {
                let i = choose|i: int| 0 <= i < self.keys().len() && self.keys()[i] == k;
                assert(self.table.entries@[i].0@ == k);
            }
        }
        self.table.entries.len()
    }

    /// The key at position `i`.
    pub fn key(&self, i: usize) -> (k: &str)
        requires
            i < self.keys().len(),
        ensures
            k@ == self.keys()[i as int],
    {
        self.table.entries[i].0.as_str()
    }

    /// The count of the key at position `i`.
    pub fn count(&self, i: usize) -> (c: u64)
        requires
            i < self.keys().len(),
        ensures
            c == self@.count(self.keys()[i as int]),
            c >= 1,
    {
        proof {
            use_type_invariant(self);
            lemma_entry_tally(self.table.entries@);
        }
        self.table.entries[i].1
    }

    /// The position of `key` among the keys, if it was counted.
    fn position(&self, key: &str) -> (at: Option<usize>)
        ensures
            match at {
                Some(i) => i < self.keys().len() && self.keys()[i as int] == key@,
                None => !self.keys().contains(key@),
            },
    {
        proof {
            use_type_invariant(self);
        }
        match self.table.index.get(key) {
            Some(i) => Some(*i),
            None => None,
        }
    }

    /// How often `key` was counted.
    pub fn get(&self, key: &str) -> (c: u64)
        ensures
            c == self@.count(key@),
    {
        proof {
            use_type_invariant(self);
            lemma_entry_tally(self.table.entries@);
        }
        match self.position(key) {
            Some(i) => self.table.entries[i].1,
            None => 0,
        }
    }

    /// Counts `times` more occurrences of `key`.
    pub fn add(&mut self, key: String, times: u64)
        requires
            times >= 1,
            old(self)@.count(key@) + times <= u64::MAX,
        ensures
            forall|k: Seq<char>|
                final(self)@.count(k) == old(self)@.count(k) + if k == key@ {
                    times as nat
                } else {
                    0
                },
            final(self).keys() == keys_added(old(self).keys(), seq![key@]),
    {
        proof {
            use_type_invariant(&*self);
            lemma_entry_tally(self.table.entries@);
            reveal_with_fuel(keys_added, 2);
            assert(seq![key@].drop_last() =~= Seq::<Seq<char>>::empty());
        }
        let at = self.position(key.as_str());
        let mut table = Table::new();
        std::mem::swap(&mut table, &mut self.table);
        let ghost before = table.entries@;
        let ghost places = table.index@;
        match at {
            Some(i) => {
                table.entries[i].1 = table.entries[i].1 + times;
                assert(entry_keys(table.entries@) =~= entry_keys(before));
            },
            None => {
                table.index.insert(key.clone(), table.entries.len());
                table.entries.push((key, times));
                assert(entry_keys(table.entries@) =~= entry_keys(before).push(key@));
                assert forall|i: int| 0 <= i < table.entries@.len() implies table.index@.contains_key(
                    #[trigger] entry_keys(table.entries@)[i],
                ) && table.index@[entry_keys(table.entries@)[i]] == i by {
                    if i < before.len() {
                        assert(entry_keys(before)[i] != key@);
                        assert(places.contains_key(entry_keys(before)[i]));
                    }
                }
            },
        }
        let ghost entries = table.entries;
        proof {
            lemma_entry_tally(entries@);
            assert forall|k: Seq<char>|
                entry_tally(entries@).count(k) == entry_tally(before).count(k) + if k == key@ {
                    times as nat
                } else {
                    0
                } by {
                if entry_keys(before).contains(k) {
                    let j = choose|j: int| 0 <= j < before.len() && entry_keys(before)[j] == k;
                    assert(before[j].0@ == k);
                    assert(entries@[j].0@ == k);
                } else if k == key@ {
                    assert(entries@[before.len() as int].0@ == k);
                } else {
                    assert(!entry_keys(entries@).contains(k));
                }
            }
        }
        self.table = table;
    }

    /// Whether the counts of `other` can be folded into this map: no sum of two
    /// counts of one key outgrows a `u64`.
    pub open spec fn fits(&self, other: &FrequencyMap) -> bool {
        forall|k: Seq<char>| self@.count(k) + other@.count(k) <= u64::MAX
    }

    /// Tells whether the counts of `other` can be folded into this map.
    pub fn can_merge(&self, other: &FrequencyMap) -> (ok: bool)
        ensures
            ok == self.fits(other),
    {
        let n = other.len();
        let mut j: usize = 0;
        while j < n
            invariant
                j <= n,
                n == other.keys().len(),
                forall|k: Seq<char>| other.keys().contains(k) <==> other@.count(k) > 0,
                forall|i: int|
                    0 <= i < j ==> self@.count(#[trigger] other.keys()[i]) + other@.count(
                        other.keys()[i],
                    ) <= u64::MAX,
            decreases n - j,
        {
            if self.get(other.key(j)) > u64::MAX - other.count(j) {
                return false;
            }
            j += 1;
        }
        proof {
            use_type_invariant(self);
            lemma_entry_tally(self.table.entries@);
            assert forall|k: Seq<char>| self@.count(k) + other@.count(k) <= u64::MAX by {
                if other@.count(k) > 0 {
                    assert(other.keys().contains(k));
                    let i = choose|i: int| 0 <= i < other.keys().len() && other.keys()[i] == k;
                    assert(other.keys()[i] == k);
                } else if self.keys().contains(k) {
                    let i = choose|i: int| 0 <= i < self.keys().len() && self.keys()[i] == k;
                    assert(self.table.entries@[i].0@ == k);
                }
            }
        }
        true
    }

    /// Folds the counts of `other` into this map, key by key.
    pub fn merge(&mut self, other: &FrequencyMap)
        requires
            old(self).fits(other),
        ensures
            final(self)@ == old(self)@.add(other@),
            final(self).keys() == keys_added(old(self).keys(), other.keys()),
    {
        broadcast use group_multiset_axioms;

        let n = other.len();
        let mut j: usize = 0;
        assert(other.keys().take(0) =~= Seq::<Seq<char>>::empty());
        while j < n
            invariant
                j <= n,
                n == other.keys().len(),
                other.keys().no_duplicates(),
                forall|k: Seq<char>| other.keys().contains(k) <==> other@.count(k) > 0,
                forall|k: Seq<char>| old(self)@.count(k) + other@.count(k) <= u64::MAX,
                forall|k: Seq<char>|
                    self@.count(k) == old(self)@.count(k) + if other.keys().take(j as int).contains(
                        k,
                    ) {
                        other@.count(k)
                    } else {
                        0
                    },
                self.keys() == keys_added(old(self).keys(), other.keys().take(j as int)),
            decreases n - j,
        {
            let key = other.key(j).to_owned();
            let times = other.count(j);
            let ghost done = other.keys().take(j as int);
            let ghost next = other.keys().take(j + 1);
            proof {
                assert(next.drop_last() =~= done);
                assert(next.last() == key@);
                if done.contains(key@) {
                    let i = choose|i: int| 0 <= i < done.len() && done[i] == key@;
                    assert(other.keys()[i] == other.keys()[j as int]);
                }
                reveal_with_fuel(keys_added, 2);
                assert(seq![key@].drop_last() =~= Seq::<Seq<char>>::empty());
            }
            self.add(key, times);
            proof {
                assert forall|k: Seq<char>|
                    self@.count(k) == old(self)@.count(k) + if next.contains(k) {
                        other@.count(k)
                    } else {
                        0
                    } by {
                    if k == key@ {
                        assert(next[j as int] == k);
                    } else if done.contains(k) {
                        let i = choose|i: int| 0 <= i < done.len() && done[i] == k;
                        assert(next[i] == k);
                    } else if next.contains(k) {
                        let i = choose|i: int| 0 <= i < next.len() && next[i] == k;
                        assert(done[i] == k);
                    }
                }
            }
            j += 1;
        }
        proof {
            assert(other.keys().take(n as int) =~= other.keys());
            assert(self@ =~= old(self)@.add(other@));
        }
    }
}

/// Counts one more occurrence of the key that `md_line` holds between its
/// surrounding whitespace. A line of whitespace only counts towards the empty key.
pub fn count_keys(md_line: &str, keycount: &mut FrequencyMap)
    requires
        old(keycount)@.count(trim(md_line@)) < u64::MAX,
    ensures
        final(keycount)@ == old(keycount)@.insert(trim(md_line@)),
        final(keycount).keys() == keys_added(old(keycount).keys(), seq![trim(md_line@)]),
{
    broadcast use group_multiset_axioms;

    keycount.add(trimmed(md_line), 1);
    assert(keycount@ =~= old(keycount)@.insert(trim(md_line@)));
}

} // verus!
