//! The localization table: a finite map from translation key to the number
//! of `%` placeholder characters found in that key's value text.

use vstd::prelude::*;

verus! {

/// The map described by a sequence of key/count entries; a later entry for a
/// key overrides an earlier one.
pub open spec fn map_of(entries: Seq<(String, usize)>) -> Map<Seq<char>, nat>
    decreases entries.len(),
{
    if entries.len() == 0 {
        Map::empty()
    } else {
        map_of(entries.drop_last()).insert(entries.last().0@, entries.last().1 as nat)
    }
}

/// No two entries bind the same key.
pub open spec fn distinct_keys(entries: Seq<(String, usize)>) -> bool {
    forall|i: int, j: int|
        0 <= i < j < entries.len() ==> (#[trigger] entries[i]).0@ != (#[trigger] entries[j]).0@
}

/// The fully parsed contents of one localization file. Keys are unique; the
/// abstract value is a `Map` from key to placeholder count.
pub struct LocalizationTable {
    entries: Vec<(String, usize)>,
}

impl View for LocalizationTable {
    type V = Map<Seq<char>, nat>;

    closed spec fn view(&self) -> Map<Seq<char>, nat> {
        map_of(self.entries@)
    }
}

proof fn lemma_map_of_contains(entries: Seq<(String, usize)>, k: Seq<char>)
    ensures
        map_of(entries).contains_key(k) <==> (exists|i: int|
            0 <= i < entries.len() && (#[trigger] entries[i]).0@ == k),
    decreases entries.len(),
{
    if entries.len() > 0 {
        lemma_map_of_contains(entries.drop_last(), k);
        if entries.last().0@ == k {
            assert(entries[entries.len() - 1].0@ == k);
        } else {
            if map_of(entries).contains_key(k) {
                let i = choose|i: int|
                    0 <= i < entries.drop_last().len() && (#[trigger] entries.drop_last()[i]).0@
                        == k;
                assert(entries[i].0@ == k);
            }
            if exists|i: int| 0 <= i < entries.len() && (#[trigger] entries[i]).0@ == k {
                let i = choose|i: int| 0 <= i < entries.len() && (#[trigger] entries[i]).0@ == k;
                assert(i < entries.len() - 1);
                assert(entries.drop_last()[i].0@ == k);
            }
        }
    }
}

proof fn lemma_map_of_index(entries: Seq<(String, usize)>, i: int)
    requires
        distinct_keys(entries),
        0 <= i < entries.len(),
    ensures
        map_of(entries).contains_key(entries[i].0@),
        map_of(entries)[entries[i].0@] == entries[i].1 as nat,
    decreases entries.len(),
{
    if i < entries.len() - 1 {
        assert(distinct_keys(entries.drop_last())) by {
            assert(forall|p: int, q: int|
                0 <= p < q < entries.drop_last().len() ==> (#[trigger] entries.drop_last()[p]).0@
                    != (#[trigger] entries.drop_last()[q]).0@) by {
                assert(forall|p: int|
                    0 <= p < entries.drop_last().len() ==> entries.drop_last()[p]
                        == #[trigger] entries[p]);
            }
        }
        lemma_map_of_index(entries.drop_last(), i);
        assert(entries.last().0@ != entries[i].0@);
    }
}

proof fn lemma_map_of_dom_len(entries: Seq<(String, usize)>)
    requires
        distinct_keys(entries),
    ensures
        map_of(entries).dom().finite(),
        map_of(entries).dom().len() == entries.len(),
    decreases entries.len(),
{
    if entries.len() == 0 {
        assert(map_of(entries).dom() =~= Set::<Seq<char>>::empty());
    } else {
        assert(distinct_keys(entries.drop_last())) by {
            assert(forall|p: int|
                0 <= p < entries.drop_last().len() ==> entries.drop_last()[p]
                    == #[trigger] entries[p]);
        }
        lemma_map_of_dom_len(entries.drop_last());
        lemma_map_of_contains(entries.drop_last(), entries.last().0@);
        assert(!map_of(entries.drop_last()).contains_key(entries.last().0@)) by {
            if exists|i: int|
                0 <= i < entries.drop_last().len() && (#[trigger] entries.drop_last()[i]).0@
                    == entries.last().0@ {
                let i = choose|i: int|
                    0 <= i < entries.drop_last().len() && (#[trigger] entries.drop_last()[i]).0@
                        == entries.last().0@;
                assert(entries[i].0@ == entries[entries.len() - 1].0@);
            }
        }
        assert(map_of(entries).dom() =~= map_of(entries.drop_last()).dom().insert(
            entries.last().0@,
        ));
    }
}

proof fn lemma_map_of_update(entries: Seq<(String, usize)>, i: int, key: String, count: usize)
    requires
        distinct_keys(entries),
        0 <= i < entries.len(),
        key@ == entries[i].0@,
    ensures
        map_of(entries.update(i, (key, count))) == map_of(entries).insert(key@, count as nat),
    decreases entries.len(),
{
    let e2 = entries.update(i, (key, count));
    if i == entries.len() - 1 {
        assert(e2.drop_last() =~= entries.drop_last());
        assert(map_of(e2) =~= map_of(entries).insert(key@, count as nat));
    } else {
        assert(distinct_keys(entries.drop_last())) by {
            assert(forall|p: int|
                0 <= p < entries.drop_last().len() ==> entries.drop_last()[p]
                    == #[trigger] entries[p]);
        }
        lemma_map_of_update(entries.drop_last(), i, key, count);
        assert(e2.drop_last() =~= entries.drop_last().update(i, (key, count)));
        assert(e2.last() == entries.last());
        assert(entries.last().0@ != key@);
        assert(map_of(e2) =~= map_of(entries).insert(key@, count as nat));
    }
}

impl LocalizationTable {
    /// The table's internal invariant: entry keys are pairwise distinct.
    pub closed spec fn wf(&self) -> bool {
        distinct_keys(self.entries@)
    }

    /// An empty table, as produced for a file with no matching lines.
    pub fn new() -> (t: LocalizationTable)
        ensures
            t.wf(),
            t@ == Map::<Seq<char>, nat>::empty(),
    {
        LocalizationTable { entries: Vec::new() }
    }

    /// Binds `key` to `count`, overwriting any earlier binding of `key`.
    pub fn insert(&mut self, key: String, count: usize)
        requires
            old(self).wf(),
        ensures
            final(self).wf(),
            final(self)@ == old(self)@.insert(key@, count as nat),
    {
        let mut i: usize = 0;
        while i < self.entries.len()
            invariant
                self == old(self),
                self.wf(),
                i <= self.entries@.len(),
                forall|j: int| 0 <= j < i ==> (#[trigger] self.entries@[j]).0@ != key@,
            decreases self.entries@.len() - i,
        {
            if self.entries[i].0 == key {
                proof {
                    lemma_map_of_update(self.entries@, i as int, key, count);
                }
                let ghost pre = self.entries@;
                self.entries[i] = (key, count);
                proof {
                    assert(forall|p: int|
                        0 <= p < pre.len() ==> (#[trigger] self.entries@[p]).0@ == pre[p].0@);
                    assert(distinct_keys(self.entries@));
                }
                return ;
            }
            i += 1;
        }
        let ghost pre = self.entries@;
        self.entries.push((key, count));
        proof {
            assert(self.entries@.drop_last() =~= pre);
            assert(self.entries@[pre.len() as int] == (key, count));
            assert(forall|j: int| 0 <= j < pre.len() ==> self.entries@[j] == #[trigger] pre[j]);
            assert(distinct_keys(self.entries@));
        }
    }

    /// Looks a key up: `Some(count)` exactly when the table binds the key.
    pub fn get(&self, key: &String) -> (r: Option<usize>)
        requires
            self.wf(),
        ensures
            r matches Some(c) ==> self@.contains_key(key@) && self@[key@] == c as nat,
            r is None ==> !self@.contains_key(key@),
    {
        let mut i: usize = 0;
        while i < self.entries.len()
            invariant
                self.wf(),
                i <= self.entries@.len(),
                forall|j: int| 0 <= j < i ==> (#[trigger] self.entries@[j]).0@ != key@,
            decreases self.entries@.len() - i,
        {
            if self.entries[i].0 == *key {
                proof {
                    lemma_map_of_index(self.entries@, i as int);
                }
                return Some(self.entries[i].1);
            }
            i += 1;
        }
        proof {
            lemma_map_of_contains(self.entries@, key@);
        }
        None
    }

    /// How many keys the table binds.
    pub fn len(&self) -> (n: usize)
        requires
            self.wf(),
        ensures
            n == self@.dom().len(),
    {
        proof {
            lemma_map_of_dom_len(self.entries@);
        }
        self.entries.len()
    }

    /// The table's keys, each exactly once, in an unspecified order.
    pub fn keys(&self) -> (ks: Vec<String>)
        requires
            self.wf(),
        ensures
            forall|i: int| 0 <= i < ks@.len() ==> self@.contains_key((#[trigger] ks@[i])@),
            forall|k: Seq<char>|
                self@.contains_key(k) ==> exists|i: int| 0 <= i < ks@.len() && (#[trigger] ks@[i])@
                    == k,
            forall|i: int, j: int|
                0 <= i < j < ks@.len() ==> (#[trigger] ks@[i])@ != (#[trigger] ks@[j])@,
    {
        let mut ks: Vec<String> = Vec::new();
        let mut i: usize = 0;
        while i < self.entries.len()
            invariant
                self.wf(),
                i <= self.entries@.len(),
                ks@.len() == i,
                forall|j: int| 0 <= j < i ==> (#[trigger] ks@[j])@ == self.entries@[j].0@,
            decreases self.entries@.len() - i,
        {
            ks.push(self.entries[i].0.clone());
            i += 1;
        }
        proof {
            assert forall|i: int| 0 <= i < ks@.len() implies self@.contains_key(
                (#[trigger] ks@[i])@,
            ) by {
                lemma_map_of_index(self.entries@, i);
            }
            assert forall|k: Seq<char>| self@.contains_key(k) implies exists|i: int|
                0 <= i < ks@.len() && (#[trigger] ks@[i])@ == k by {
                lemma_map_of_contains(self.entries@, k);
                let i = choose|i: int|
                    0 <= i < self.entries@.len() && (#[trigger] self.entries@[i]).0@ == k;
                assert(ks@[i]@ == k);
            }
        }
        ks
    }
}

} // verus!
