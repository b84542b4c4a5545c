use vstd::prelude::*;
use vstd::string::*;

verus! {

/// A mapping from names to values in which a later insertion under a name replaces the
/// earlier one.
#[derive(Debug)]
pub struct NameMap<V> {
    entries: Vec<(String, V)>,
}

/// The map that a list of entries describes, a later entry under a name shadowing an earlier one.
pub open spec fn map_of<V>(entries: Seq<(String, V)>) -> Map<Seq<char>, V>
    decreases entries.len(),
{
    if entries.len() == 0 {
        Map::empty()
    } else {
        map_of(entries.drop_last()).insert(entries.last().0@, entries.last().1)
    }
}

pub open spec fn keys_unique<V>(entries: Seq<(String, V)>) -> bool {
    forall|i: int, j: int| 0 <= i < j < entries.len() ==> (#[trigger] entries[i]).0@ != (#[trigger] entries[j]).0@
}

proof fn lemma_map_of_index<V>(entries: Seq<(String, V)>, i: int)
    requires
        keys_unique(entries),
        0 <= i < entries.len(),
    ensures
        map_of(entries).contains_key(entries[i].0@),
        map_of(entries)[entries[i].0@] == entries[i].1,
    decreases entries.len(),
{
    if i < entries.len() - 1 {
        let rest = entries.drop_last();
        assert(rest[i] == entries[i]);
        assert(entries[entries.len() - 1] == entries.last());
        lemma_map_of_index(rest, i);
    }
}

proof fn lemma_map_of_missing<V>(entries: Seq<(String, V)>, k: Seq<char>)
    requires
        forall|i: int| 0 <= i < entries.len() ==> (#[trigger] entries[i]).0@ != k,
    ensures
        !map_of(entries).contains_key(k),
    decreases entries.len(),
{
    if entries.len() > 0 {
        let rest = entries.drop_last();
        assert forall|i: int| 0 <= i < rest.len() implies (#[trigger] rest[i]).0@ != k by {
            assert(rest[i] == entries[i]);
        }
        assert(entries[entries.len() - 1] == entries.last());
        lemma_map_of_missing(rest, k);
    }
}

proof fn lemma_map_of_update<V>(entries: Seq<(String, V)>, i: int, e: (String, V))
    requires
        keys_unique(entries),
        0 <= i < entries.len(),
        e.0@ == entries[i].0@,
    ensures
        map_of(entries.update(i, e)) == map_of(entries).insert(e.0@, e.1),
    decreases entries.len(),
{
    let upd = entries.update(i, e);
    let rest = entries.drop_last();
    if i == entries.len() - 1 {
        assert(upd.drop_last() =~= rest);
        assert(map_of(upd) =~= map_of(entries).insert(e.0@, e.1));
    } else {
        assert(upd.drop_last() =~= rest.update(i, e));
        assert(keys_unique(rest)) by {
            assert forall|a: int, b: int| 0 <= a < b < rest.len() implies (#[trigger] rest[a]).0@ != (#[trigger] rest[b]).0@ by {
                assert(rest[a] == entries[a]);
                assert(rest[b] == entries[b]);
            }
        }
        lemma_map_of_update(rest, i, e);
        assert(entries[entries.len() - 1] == entries.last());
        assert(entries[i] == entries[i]);
        assert(entries.last().0@ != e.0@);
        assert(map_of(upd) =~= map_of(entries).insert(e.0@, e.1));
    }
}

impl<V> NameMap<V> {
    pub closed spec fn view(&self) -> Map<Seq<char>, V> {
        map_of(self.entries@)
    }

    pub closed spec fn wf(&self) -> bool {
        keys_unique(self.entries@)
    }

    pub fn new() -> (r: NameMap<V>)
        ensures
            r.wf(),
            r@ == Map::<Seq<char>, V>::empty(),
    {
        NameMap { entries: Vec::new() }
    }

    /// The index of the entry under `key`, if there is one.
    fn find(&self, key: &str) -> (r: Option<usize>)
        requires
            self.wf(),
        ensures
            r matches Some(i) ==> i < self.entries@.len() && self.entries@[i as int].0@ == key@,
            r is None ==> forall|i: int| 0 <= i < self.entries@.len() ==> (#[trigger] self.entries@[i]).0@ != key@,
    {
        let mut i: usize = 0;
        while i < self.entries.len()
            invariant
                i <= self.entries@.len(),
                forall|j: int| 0 <= j < i ==> (#[trigger] self.entries@[j]).0@ != key@,
            decreases self.entries@.len() - i,
        {
            if text_equal(self.entries[i].0.as_str(), key) {
                return Some(i);
            }
            i = i + 1;
        }
        None
    }

    /// Whether a value is held under `key`.
    pub fn contains_key(&self, key: &str) -> (r: bool)
        requires
            self.wf(),
        ensures
            r == self@.contains_key(key@),
    {
        match self.find(key) {
            Some(i) => {
                proof {
                    lemma_map_of_index(self.entries@, i as int);
                }
                true
            },
            None => {
                proof {
                    lemma_map_of_missing(self.entries@, key@);
                }
                false
            },
        }
    }

    /// The value held under `key`, if any.
    pub fn get(&self, key: &str) -> (r: Option<&V>)
        requires
            self.wf(),
        ensures
            r matches Some(v) ==> self@.contains_key(key@) && *v == self@[key@],
            r is None ==> !self@.contains_key(key@),
    {
        match self.find(key) {
            Some(i) => {
                proof {
                    lemma_map_of_index(self.entries@, i as int);
                }
                Some(&self.entries[i].1)
            },
            None => {
                proof {
                    lemma_map_of_missing(self.entries@, key@);
                }
                None
            },
        }
    }

    /// Hold `value` under `key`, replacing what was held there before.
    pub fn insert(&mut self, key: String, value: V)
        requires
            old(self).wf(),
        ensures
            final(self).wf(),
            final(self)@ == old(self)@.insert(key@, value),
    {
        match self.find(key.as_str()) {
            Some(i) => {
                proof {
                    lemma_map_of_update(self.entries@, i as int, (key, value));
                }
                self.entries.set(i, (key, value));
                proof {
                    assert forall|a: int, b: int| 0 <= a < b < self.entries@.len() implies (#[trigger] self.entries@[a]).0@ != (#[trigger] self.entries@[b]).0@ by {
                        assert(old(self).entries@[a] == old(self).entries@[a]);
                    }
                }
            },
            None => {
                let ghost before = self.entries@;
                self.entries.push((key, value));
                proof {
                    assert(self.entries@.drop_last() =~= before);
                    assert forall|a: int, b: int| 0 <= a < b < self.entries@.len() implies (#[trigger] self.entries@[a]).0@ != (#[trigger] self.entries@[b]).0@ by {
                        if b < before.len() {
                            assert(self.entries@[a] == before[a]);
                            assert(self.entries@[b] == before[b]);
                        } else {
                            assert(self.entries@[a] == before[a]);
                        }
                    }
                }
            },
        }
    }

    /// How many names hold a value.
    pub fn len(&self) -> (r: usize)
        requires
            self.wf(),
        ensures
            r == self@.len(),
    {
        proof {
            lemma_map_of_len(self.entries@);
        }
        self.entries.len()
    }
}

proof fn lemma_map_of_len<V>(entries: Seq<(String, V)>)
    requires
        keys_unique(entries),
    ensures
        map_of(entries).dom().finite(),
        map_of(entries).len() == entries.len(),
    decreases entries.len(),
{
    if entries.len() > 0 {
        let rest = entries.drop_last();
        assert(keys_unique(rest)) by {
            assert forall|a: int, b: int| 0 <= a < b < rest.len() implies (#[trigger] rest[a]).0@ != (#[trigger] rest[b]).0@ by {
                assert(rest[a] == entries[a]);
                assert(rest[b] == entries[b]);
            }
        }
        lemma_map_of_len(rest);
        assert forall|i: int| 0 <= i < rest.len() implies (#[trigger] rest[i]).0@ != entries.last().0@ by {
            assert(rest[i] == entries[i]);
            assert(entries[entries.len() - 1] == entries.last());
        }
        lemma_map_of_missing(rest, entries.last().0@);
        assert(map_of(entries).dom() =~= map_of(rest).dom().insert(entries.last().0@));
    }
}

/// Whether the two strings hold the same characters.
pub fn text_equal(a: &str, b: &str) -> (r: bool)
    ensures
        r == (a@ == b@),
{
    let n = a.unicode_len();
    if n != b.unicode_len() {
        return false;
    }
    let mut i: usize = 0;
    while i < n
        invariant
            n == a@.len(),
            n == b@.len(),
            i <= n,
            forall|j: int| 0 <= j < i ==> a@[j] == b@[j],
        decreases n - i,
    {
        if a.get_char(i) != b.get_char(i) {
            return false;
        }
        i = i + 1;
    }
    assert(a@ =~= b@);
    true
}

} // verus!
