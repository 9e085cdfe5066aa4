//! A small keyed collection that remembers the order of its entries.

use vstd::prelude::*;

verus! {

/// What can be looked up in a [`Table`]: two keys are the same when their views
/// are.
pub trait Key: View + Sized {
    fn same_key(&self, other: &Self) -> (r: bool)
        ensures
            r == (self@ == other@),
    ;
}

impl Key for String {
    fn same_key(&self, other: &Self) -> (r: bool) {
        *self == *other
    }
}

impl Key for u64 {
    fn same_key(&self, other: &Self) -> (r: bool) {
        *self == *other
    }
}

/// Values by key, each key at most once, in the order in which the keys came.
#[derive(Debug)]
pub struct Table<K: Key, V> {
    entries: Vec<(K, V)>,
}

/// The mapping that a list of entries stands for.
pub open spec fn mapping<K: Key, V>(entries: Seq<(K, V)>) -> Map<K::V, V>
    decreases entries.len(),
{
    if entries.len() == 0 {
        Map::empty()
    } else {
        mapping(entries.drop_last()).insert(entries.last().0@, entries.last().1)
    }
}

/// Place of a key in a list of entries.
pub open spec fn place_of<K: Key, V>(entries: Seq<(K, V)>, key: K::V) -> int {
    choose|i: int| 0 <= i < entries.len() && (#[trigger] entries[i]).0@ == key
}

/// No key stands twice in a list of entries.
pub open spec fn distinct_keys<K: Key, V>(entries: Seq<(K, V)>) -> bool {
    forall|i: int, j: int|
        #![trigger entries[i], entries[j]]
        0 <= i < j < entries.len() ==> entries[i].0@ != entries[j].0@
}

/// A mapping holds what its entries say.
pub proof fn lemma_mapping<K: Key, V>(entries: Seq<(K, V)>)
    requires
        distinct_keys(entries),
    ensures
        forall|i: int|
            #![trigger entries[i]]
            0 <= i < entries.len() ==> mapping(entries).contains_key(entries[i].0@) && mapping(
                entries,
            )[entries[i].0@] == entries[i].1,
        forall|k: K::V|
            #[trigger] mapping(entries).contains_key(k) ==> exists|i: int|
                0 <= i < entries.len() && (#[trigger] entries[i]).0@ == k,
    decreases entries.len(),
{
    if entries.len() > 0 {
        let rest = entries.drop_last();
        assert(distinct_keys(rest)) by {
            assert forall|i: int, j: int| #![trigger rest[i], rest[j]] 0 <= i < j < rest.len() implies rest[i].0@
                != rest[j].0@ by {
                assert(entries[i].0@ != entries[j].0@);
            }
        }
        lemma_mapping(rest);
        let last = entries.last();
        assert forall|i: int| #![trigger entries[i]] 0 <= i < entries.len() implies mapping(entries).contains_key(
            entries[i].0@,
        ) && mapping(entries)[entries[i].0@] == entries[i].1 by {
            if i < rest.len() {
                assert(rest[i] == entries[i]);
                assert(entries[i].0@ != entries[entries.len() - 1].0@);
            }
        }
        assert forall|k: K::V| #[trigger] mapping(entries).contains_key(k) implies exists|i: int|
            0 <= i < entries.len() && (#[trigger] entries[i]).0@ == k by {
            if k == last.0@ {
                assert(entries[entries.len() - 1].0@ == k);
            } else {
                assert(mapping(rest).contains_key(k));
                let i = choose|i: int| 0 <= i < rest.len() && (#[trigger] rest[i]).0@ == k;
                assert(entries[i].0@ == k);
            }
        }
    }
}

impl<K: Key, V> View for Table<K, V> {
    type V = Map<K::V, V>;

    closed spec fn view(&self) -> Map<K::V, V> {
        mapping(self.entries@)
    }
}

impl<K: Key, V> Table<K, V> {
    #[verifier::type_invariant]
    spec fn well_formed(self) -> bool {
        distinct_keys(self.entries@)
    }

    /// The entries in order.
    pub closed spec fn list(self) -> Seq<(K, V)> {
        self.entries@
    }

    pub fn new() -> (r: Self)
        ensures
            r@ == Map::<K::V, V>::empty(),
            r.list() == Seq::<(K, V)>::empty(),
    {
        Table { entries: Vec::new() }
    }

    pub fn len(&self) -> (r: usize)
        ensures
            r == self.list().len(),
            distinct_keys(self.list()),
            self@ == mapping(self.list()),
    {
        proof {
            use_type_invariant(self);
        }
        self.entries.len()
    }

    /// Number of the entry with this key.
    fn position(&self, key: &K) -> (r: Option<usize>)
        ensures
            match r {
                Some(i) => i < self.entries.len() && self.entries[i as int].0@ == key@ && self@.contains_key(key@)
                    && self@[key@] == self.entries[i as int].1 && i == place_of(self.entries@, key@),
                None => !self@.contains_key(key@),
            },
    {
        let mut i: usize = 0;
        while i < self.entries.len()
            invariant
                i <= self.entries.len(),
                forall|j: int| 0 <= j < i ==> (#[trigger] self.entries@[j]).0@ != key@,
            decreases self.entries.len() - i,
        {
            if self.entries[i].0.same_key(key) {
                proof {
                    use_type_invariant(self);
                    lemma_mapping(self.entries@);
                    assert(self.entries@[i as int].0@ == key@);
                    let place = place_of(self.entries@, key@);
                    assert(self.entries@[place].0@ == key@);
                }
                return Some(i);
            }
            i = i + 1;
        }
        proof {
            use_type_invariant(self);
            lemma_mapping(self.entries@);
        }
        None
    }

    pub fn get(&self, key: &K) -> (r: Option<&V>)
        ensures
            match r {
                Some(v) => self@.contains_key(key@) && *v == self@[key@],
                None => !self@.contains_key(key@),
            },
    {
        match self.position(key) {
            Some(i) => Some(&self.entries[i].1),
            None => None,
        }
    }

    pub fn contains_key(&self, key: &K) -> (r: bool)
        ensures
            r == self@.contains_key(key@),
    {
        self.position(key).is_some()
    }

    /// The entry at a place in the order.
    pub fn entry(&self, i: usize) -> (r: &(K, V))
        requires
            i < self.list().len(),
        ensures
            *r == self.list()[i as int],
            self@.contains_key(r.0@),
            self@[r.0@] == r.1,
    {
        proof {
            use_type_invariant(self);
            lemma_mapping(self.entries@);
        }
        &self.entries[i]
    }

    /// Sets the value of a key. A new key comes last, a known one keeps its
    /// place.
    pub fn insert(&mut self, key: K, value: V)
        ensures
            final(self)@ == old(self)@.insert(key@, value),
            final(self).list() == if old(self)@.contains_key(key@) {
                old(self).list().update(place_of(old(self).list(), key@), (key, value))
            } else {
                old(self).list().push((key, value))
            },
            old(self)@.contains_key(key@) ==> {
                let place = place_of(old(self).list(), key@);
                0 <= place < old(self).list().len() && old(self).list()[place].0@ == key@
            },
    {
        let mut entries: Vec<(K, V)> = Vec::new();
        let place = self.position(&key);
        proof {
            use_type_invariant(&*self);
            lemma_mapping(self.entries@);
        }
        std::mem::swap(&mut entries, &mut self.entries);
        let ghost before = entries@;
        match place {
            Some(i) => {
                entries.set(i, (key, value));
                proof {
                    lemma_replaced(before, i as int, key, value);
                }
            },
            None => {
                entries.push((key, value));
                proof {
                    assert forall|i: int, j: int| #![trigger entries@[i], entries@[j]] 0 <= i < j
                        < entries@.len() implies entries@[i].0@ != entries@[j].0@ by {
                        assert(before[i] == entries@[i]);
                        if j < before.len() {
                            assert(before[j] == entries@[j]);
                        }
                    }
                    assert(entries@.drop_last() == before);
                }
            },
        }
        self.entries = entries;
    }

    /// Takes a key out. The other entries keep their order.
    pub fn remove(&mut self, key: &K)
        ensures
            final(self)@ == old(self)@.remove(key@),
            final(self).list() == if old(self)@.contains_key(key@) {
                old(self).list().remove(place_of(old(self).list(), key@))
            } else {
                old(self).list()
            },
            old(self)@.contains_key(key@) ==> {
                let place = place_of(old(self).list(), key@);
                0 <= place < old(self).list().len() && old(self).list()[place].0@ == key@
            },
    {
        let place = self.position(key);
        proof {
            use_type_invariant(&*self);
            lemma_mapping(self.entries@);
        }
        match place {
            Some(i) => {
                let mut entries: Vec<(K, V)> = Vec::new();
                std::mem::swap(&mut entries, &mut self.entries);
                let ghost before = entries@;
                entries.remove(i);
                proof {
                    lemma_removed(before, i as int);
                }
                self.entries = entries;
            },
            None => {
                assert(self@.remove(key@) == self@);
            },
        }
    }
}

/// Replacing the entry of a key sets its value.
proof fn lemma_replaced<K: Key, V>(entries: Seq<(K, V)>, i: int, key: K, value: V)
    requires
        distinct_keys(entries),
        0 <= i < entries.len(),
        entries[i].0@ == key@,
    ensures
        distinct_keys(entries.update(i, (key, value))),
        mapping(entries.update(i, (key, value))) == mapping(entries).insert(key@, value),
{
    let after = entries.update(i, (key, value));
    assert forall|a: int, b: int| #![trigger after[a], after[b]] 0 <= a < b < after.len() implies after[a].0@
        != after[b].0@ by {
        assert(after[a].0@ == entries[a].0@);
        assert(after[b].0@ == entries[b].0@);
    }
    lemma_mapping(entries);
    lemma_mapping(after);
    let m = mapping(after);
    let n = mapping(entries).insert(key@, value);
    assert forall|k: K::V| m.contains_key(k) <==> n.contains_key(k) by {
        if m.contains_key(k) {
            let a = choose|a: int| 0 <= a < after.len() && (#[trigger] after[a]).0@ == k;
            assert(entries[a].0@ == k);
        }
        if n.contains_key(k) {
            if k == key@ {
                assert(after[i].0@ == k);
            } else {
                let a = choose|a: int| 0 <= a < entries.len() && (#[trigger] entries[a]).0@ == k;
                assert(after[a].0@ == k);
            }
        }
    }
    assert forall|k: K::V| m.contains_key(k) implies m[k] == n[k] by {
        let a = choose|a: int| 0 <= a < after.len() && (#[trigger] after[a]).0@ == k;
        if a == i {
            assert(after[i].0@ == k);
        } else {
            assert(entries[a] == after[a]);
            assert(entries[i].0@ == key@);
        }
    }
    assert(m =~= n);
}

/// Taking an entry out takes its key out.
proof fn lemma_removed<K: Key, V>(entries: Seq<(K, V)>, i: int)
    requires
        distinct_keys(entries),
        0 <= i < entries.len(),
    ensures
        distinct_keys(entries.remove(i)),
        mapping(entries.remove(i)) == mapping(entries).remove(entries[i].0@),
{
    let after = entries.remove(i);
    assert forall|a: int, b: int| #![trigger after[a], after[b]] 0 <= a < b < after.len() implies after[a].0@
        != after[b].0@ by {
        let c = if a < i { a } else { a + 1 };
        let d = if b < i { b } else { b + 1 };
        assert(after[a] == entries[c]);
        assert(after[b] == entries[d]);
    }
    lemma_mapping(entries);
    lemma_mapping(after);
    let m = mapping(after);
    let n = mapping(entries).remove(entries[i].0@);
    assert forall|k: K::V| m.contains_key(k) <==> n.contains_key(k) by {
        if m.contains_key(k) {
            let a = choose|a: int| 0 <= a < after.len() && (#[trigger] after[a]).0@ == k;
            let c = if a < i { a } else { a + 1 };
            assert(after[a] == entries[c]);
            assert(entries[i].0@ != entries[c].0@);
        }
        if n.contains_key(k) {
            let c = choose|c: int| 0 <= c < entries.len() && (#[trigger] entries[c]).0@ == k;
            let a = if c < i { c } else { c - 1 };
            assert(after[a] == entries[c]);
        }
    }
    assert forall|k: K::V| m.contains_key(k) implies m[k] == n[k] by {
        let a = choose|a: int| 0 <= a < after.len() && (#[trigger] after[a]).0@ == k;
        let c = if a < i { a } else { a + 1 };
        assert(after[a] == entries[c]);
        assert(entries[i].0@ != entries[c].0@);
    }
    assert(m =~= n);
}

} // verus!
