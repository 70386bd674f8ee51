use vstd::prelude::*;

verus! {

/// The map that a list of entries stands for: each key with its value.
pub open spec fn entries_map<K, V>(entries: Seq<(K, V)>) -> Map<K, V>
    decreases entries.len(),
{
    if entries.len() == 0 {
        Map::empty()
    } else {
        entries_map(entries.drop_last()).insert(entries.last().0, entries.last().1)
    }
}

/// No key appears twice.
pub open spec fn keys_unique<K, V>(entries: Seq<(K, V)>) -> bool {
    forall|i: int, j: int|
        0 <= i < j < entries.len() ==> #[trigger] entries[i].0 != #[trigger] entries[j].0
}

/// A cache entry is written once: storing under a key that is present changes nothing.
pub open spec fn write_once<K, V>(m: Map<K, V>, key: K, value: V) -> Map<K, V> {
    if m.contains_key(key) {
        m
    } else {
        m.insert(key, value)
    }
}

proof fn lemma_entries_lookup<K, V>(entries: Seq<(K, V)>, i: int)
    requires
        keys_unique(entries),
        0 <= i < entries.len(),
    ensures
        entries_map(entries).contains_key(entries[i].0),
        entries_map(entries)[entries[i].0] == entries[i].1,
    decreases entries.len(),
{
    if i < entries.len() - 1 {
        let prev = entries.drop_last();
        assert(prev[i] == entries[i]);
        assert(keys_unique(prev)) by {
            assert forall|a: int, b: int| 0 <= a < b < prev.len() implies #[trigger] prev[a].0
                != #[trigger] prev[b].0 by {
                assert(prev[a] == entries[a] && prev[b] == entries[b]);
            }
        }
        lemma_entries_lookup(prev, i);
        assert(entries[i].0 != entries[entries.len() - 1].0);
    }
}

proof fn lemma_entries_absent<K, V>(entries: Seq<(K, V)>, key: K)
    requires
        forall|i: int| 0 <= i < entries.len() ==> #[trigger] entries[i].0 != key,
    ensures
        !entries_map(entries).contains_key(key),
    decreases entries.len(),
{
    if entries.len() > 0 {
        let prev = entries.drop_last();
        assert forall|i: int| 0 <= i < prev.len() implies #[trigger] prev[i].0 != key by {
            assert(prev[i] == entries[i]);
        }
        lemma_entries_absent(prev, key);
        assert(entries[entries.len() - 1].0 != key);
    }
}

/// Storing under a key a second time, with any value, leaves the cache as the first store
/// left it, and a lookup then gives the value of the first store for that key.
pub proof fn lemma_write_once_keeps_first<K, V>(m: Map<K, V>, key: K, first: V, second: V)
    ensures
        write_once(write_once(m, key, first), key, second) == write_once(m, key, first),
        write_once(m, key, first).contains_key(key),
        write_once(m, key, first)[key] == if m.contains_key(key) {
            m[key]
        } else {
            first
        },
{
}

/// The capital metrics measured for each font size and line height, keyed by the bit patterns
/// of the two numbers. An entry, once stored, never changes.
pub struct MetricsCache<V> {
    entries: Vec<((u32, u32), V)>,
}

impl<V> View for MetricsCache<V> {
    type V = Map<(u32, u32), V>;

    closed spec fn view(&self) -> Map<(u32, u32), V> {
        entries_map(self.entries@)
    }
}

impl<V> MetricsCache<V> {
    /// No key is stored twice.
    pub closed spec fn wf(&self) -> bool {
        keys_unique(self.entries@)
    }

    /// An empty cache.
    pub fn new() -> (r: MetricsCache<V>)
        ensures
            r.wf(),
            r@ == Map::<(u32, u32), V>::empty(),
    {
        MetricsCache { entries: Vec::new() }
    }

    fn find(&self, key: (u32, u32)) -> (r: Option<usize>)
        ensures
            match r {
                Some(i) => i < self.entries@.len() && self.entries@[i as int].0 == key,
                None => forall|i: int|
                    0 <= i < self.entries@.len() ==> #[trigger] self.entries@[i].0 != key,
            },
    {
        let mut i: usize = 0;
        while i < self.entries.len()
            invariant
                0 <= i <= self.entries@.len(),
                forall|j: int| 0 <= j < i ==> #[trigger] self.entries@[j].0 != key,
            decreases self.entries@.len() - i,
        {
            let k = self.entries[i].0;
            if k.0 == key.0 && k.1 == key.1 {
                return Some(i);
            }
            i = i + 1;
        }
        None
    }

    /// The value stored under `key`, if any.
    pub fn get(&self, key: (u32, u32)) -> (r: Option<&V>)
        requires
            self.wf(),
        ensures
            r is Some == self@.contains_key(key),
            r matches Some(v) ==> *v == self@[key],
    {
        match self.find(key) {
            Some(i) => {
                proof {
                    lemma_entries_lookup(self.entries@, i as int);
                }
                Some(&self.entries[i].1)
            },
            None => {
                proof {
                    lemma_entries_absent(self.entries@, key);
                }
                None
            },
        }
    }

    /// Stores `value` under `key` unless a value is stored there already.
    pub fn store(&mut self, key: (u32, u32), value: V)
        requires
            old(self).wf(),
        ensures
            final(self).wf(),
            final(self)@ == write_once(old(self)@, key, value),
    {
        match self.find(key) {
            Some(i) => {
                proof {
                    lemma_entries_lookup(self.entries@, i as int);
                }
            },
            None => {
                proof {
                    lemma_entries_absent(self.entries@, key);
                }
                let ghost before = self.entries@;
                self.entries.push((key, value));
                assert(self.entries@.drop_last() =~= before);
                assert(keys_unique(self.entries@)) by {
                    assert forall|a: int, b: int| 0 <= a < b < self.entries@.len() implies
                        #[trigger] self.entries@[a].0 != #[trigger] self.entries@[b].0 by {
                        assert(self.entries@[a] == before[a]);
                        if b < before.len() {
                            assert(self.entries@[b] == before[b]);
                        }
                    }
                }
            },
        }
    }
}

pub open spec fn keyed<V>(entries: Seq<(String, V)>) -> Seq<(Seq<char>, V)> {
    entries.map_values(|e: (String, V)| (e.0@, e.1))
}

/// The parsed vector document of each emoji drawn so far, keyed by the emoji. An entry, once
/// stored, never changes, so a lookup of the same emoji always gives the same document.
pub struct TreeCache<V> {
    entries: Vec<(String, V)>,
}

impl<V> View for TreeCache<V> {
    type V = Map<Seq<char>, V>;

    closed spec fn view(&self) -> Map<Seq<char>, V> {
        entries_map(keyed(self.entries@))
    }
}

impl<V> TreeCache<V> {
    /// No emoji is stored twice.
    pub closed spec fn wf(&self) -> bool {
        keys_unique(keyed(self.entries@))
    }

    /// An empty cache.
    pub fn new() -> (r: TreeCache<V>)
        ensures
            r.wf(),
            r@ == Map::<Seq<char>, V>::empty(),
    {
        TreeCache { entries: Vec::new() }
    }

    fn find(&self, emoji: &str) -> (r: Option<usize>)
        ensures
            match r {
                Some(i) => i < self.entries@.len() && keyed(self.entries@)[i as int].0 == emoji@,
                None => forall|i: int|
                    0 <= i < self.entries@.len() ==> #[trigger] keyed(self.entries@)[i].0 != emoji@,
            },
    {
        let key = String::from_str(emoji);
        let mut i: usize = 0;
        while i < self.entries.len()
            invariant
                0 <= i <= self.entries@.len(),
                key@ == emoji@,
                forall|j: int| 0 <= j < i ==> #[trigger] keyed(self.entries@)[j].0 != emoji@,
            decreases self.entries@.len() - i,
        {
            if self.entries[i].0 == key {
                return Some(i);
            }
            i = i + 1;
        }
        None
    }

    /// The document stored for `emoji`, if any.
    pub fn get(&self, emoji: &str) -> (r: Option<&V>)
        requires
            self.wf(),
        ensures
            r is Some == self@.contains_key(emoji@),
            r matches Some(v) ==> *v == self@[emoji@],
    {
        match self.find(emoji) {
            Some(i) => {
                proof {
                    lemma_entries_lookup(keyed(self.entries@), i as int);
                }
                Some(&self.entries[i].1)
            },
            None => {
                proof {
                    lemma_entries_absent(keyed(self.entries@), emoji@);
                }
                None
            },
        }
    }

    /// Stores `value` for `emoji` unless a document is stored for it already.
    pub fn store(&mut self, emoji: &str, value: V)
        requires
            old(self).wf(),
        ensures
            final(self).wf(),
            final(self)@ == write_once(old(self)@, emoji@, value),
    {
        match self.find(emoji) {
            Some(i) => {
                proof {
                    lemma_entries_lookup(keyed(self.entries@), i as int);
                }
            },
            None => {
                proof {
                    lemma_entries_absent(keyed(self.entries@), emoji@);
                }
                let ghost before = keyed(self.entries@);
                self.entries.push((String::from_str(emoji), value));
                let ghost after = keyed(self.entries@);
                assert(after.drop_last() =~= before);
                assert(keys_unique(after)) by {
                    assert forall|a: int, b: int| 0 <= a < b < after.len() implies
                        #[trigger] after[a].0 != #[trigger] after[b].0 by {
                        assert(after[a] == before[a]);
                        if b < before.len() {
                            assert(after[b] == before[b]);
                        }
                    }
                }
            },
        }
    }
}

} // verus!
