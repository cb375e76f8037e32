//! Tables from text keys to values, kept in the order of insertion.
use vstd::prelude::*;

use crate::num::Num;
use crate::text::copy_text;

verus! {

/// A map from text to `V`. Of two entries with one key the first counts.
pub struct Table<V> {
    entries: Vec<(String, V)>,
}

/// Numeric fields by their identifier.
pub type RawFrame = Table<Num>;

/// Text fields by their identifier.
pub type StringFrame = Table<String>;

/// The map that a list of entries stands for.
pub open spec fn map_of<V>(s: Seq<(String, V)>) -> Map<Seq<char>, V>
    decreases s.len(),
{
    if s.len() == 0 {
        Map::empty()
    } else {
        let front: Map<Seq<char>, V> = map_of(s.drop_last());
        let key: Seq<char> = s.last().0@;
        if front.contains_key(key) {
            front
        } else {
            front.insert(key, s.last().1)
        }
    }
}

/// A key of a front part keeps its value in the whole.
pub proof fn lemma_map_front<V>(s: Seq<(String, V)>, n: int, key: Seq<char>)
    requires
        0 <= n <= s.len(),
    ensures
        map_of(s.take(n)).contains_key(key) ==> map_of(s).contains_key(key) && map_of(s)[key]
            == map_of(s.take(n))[key],
    decreases s.len(),
{
    if n < s.len() {
        assert(s.drop_last().take(n) =~= s.take(n));
        lemma_map_front(s.drop_last(), n, key);
    } else {
        assert(s.take(n) =~= s);
    }
}

/// The first entry of the list is the one that counts.
pub proof fn lemma_map_first<V>(s: Seq<(String, V)>)
    requires
        s.len() > 0,
    ensures
        map_of(s) == map_of(s.skip(1)).insert(s[0].0@, s[0].1),
    decreases s.len(),
{
    if s.len() == 1 {
        assert(s.drop_last() =~= seq![]);
        assert(s.skip(1) =~= seq![]);
        assert(map_of(s) =~= map_of(s.skip(1)).insert(s[0].0@, s[0].1));
    } else {
        lemma_map_first(s.drop_last());
        assert(s.drop_last().skip(1) =~= s.skip(1).drop_last());
        assert(map_of(s) =~= map_of(s.skip(1)).insert(s[0].0@, s[0].1));
    }
}

/// The value at a key changes with the first entry of the key.
proof fn lemma_map_update<V>(s: Seq<(String, V)>, i: int, e: (String, V))
    requires
        0 <= i < s.len(),
        e.0@ == s[i].0@,
        !map_of(s.take(i)).contains_key(s[i].0@),
    ensures
        map_of(s.update(i, e)) == map_of(s).insert(e.0@, e.1),
    decreases s.len(),
{
    let t: Seq<(String, V)> = s.update(i, e);
    if i == s.len() - 1 {
        assert(t.drop_last() =~= s.drop_last());
        assert(s.take(i) =~= s.drop_last());
        assert(map_of(t) =~= map_of(s).insert(e.0@, e.1));
    } else {
        assert(t.drop_last() =~= s.drop_last().update(i, e));
        assert(s.drop_last().take(i) =~= s.take(i));
        lemma_map_update(s.drop_last(), i, e);
        assert(s.take(i + 1).drop_last() =~= s.take(i));
        assert(map_of(s.take(i + 1)).contains_key(e.0@));
        assert(s.drop_last().take(i + 1) =~= s.take(i + 1));
        lemma_map_front(s.drop_last(), i + 1, e.0@);
        assert(map_of(t) =~= map_of(s).insert(e.0@, e.1));
    }
}

impl<V> View for Table<V> {
    type V = Map<Seq<char>, V>;

    closed spec fn view(&self) -> Map<Seq<char>, V> {
        map_of(self.entries@)
    }
}

impl<V> Table<V> {
    /// The entries, in the order of insertion.
    pub closed spec fn list(self) -> Seq<(String, V)> {
        self.entries@
    }

    /// The entries make up the map.
    pub proof fn lemma_list(self)
        ensures
            self@ == map_of(self.list()),
    {
    }

    /// A table without entries.
    pub fn new() -> (r: Self)
        ensures
            r@ == Map::<Seq<char>, V>::empty(),
    {
        Table { entries: Vec::new() }
    }

    /// The number of entries.
    pub fn count(&self) -> (n: usize)
        ensures
            n == self.list().len(),
    {
        self.entries.len()
    }

    /// The entry at position `i`.
    pub fn entry(&self, i: usize) -> (r: (&String, &V))
        requires
            i < self.list().len(),
        ensures
            *r.0 == self.list()[i as int].0,
            *r.1 == self.list()[i as int].1,
    {
        let e: &(String, V) = &self.entries[i];
        (&e.0, &e.1)
    }

    /// Where the first entry of `key` stands.
    fn place(&self, key: &String) -> (r: Option<usize>)
        ensures
            match r {
                Some(i) => i < self.entries@.len() && self.entries@[i as int].0@ == key@
                    && !map_of(self.entries@.take(i as int)).contains_key(key@) && self@.contains_key(
                    key@,
                ) && self@[key@] == self.entries@[i as int].1,
                None => !self@.contains_key(key@),
            },
    {
        let mut i: usize = 0;
        while i < self.entries.len()
            invariant
                i <= self.entries@.len(),
                !map_of(self.entries@.take(i as int)).contains_key(key@),
            decreases self.entries@.len() - i,
        {
            proof {
                assert(self.entries@.take(i as int + 1).drop_last() =~= self.entries@.take(
                    i as int,
                ));
            }
            if self.entries[i].0 == *key {
                proof {
                    lemma_map_front(self.entries@, i as int + 1, key@);
                }
                return Some(i);
            }
            i = i + 1;
        }
        proof {
            assert(self.entries@.take(i as int) =~= self.entries@);
        }
        None
    }

    /// The value at `key`.
    pub fn get(&self, key: &str) -> (r: Option<&V>)
        ensures
            match r {
                Some(v) => self@.contains_key(key@) && *v == self@[key@],
                None => !self@.contains_key(key@),
            },
    {
        let key: String = copy_text(key);
        match self.place(&key) {
            Some(i) => Some(&self.entries[i].1),
            None => None,
        }
    }

    /// Whether there is a value at `key`.
    pub fn contains_key(&self, key: &str) -> (r: bool)
        ensures
            r == self@.contains_key(key@),
    {
        match self.get(key) {
            Some(_) => true,
            None => false,
        }
    }

    /// Whether there is no value at all.
    pub fn is_empty(&self) -> (r: bool)
        ensures
            r == (self@ == Map::<Seq<char>, V>::empty()),
    {
        proof {
            if self.entries@.len() > 0 {
                let key: Seq<char> = self.entries@.last().0@;
                assert(self@.contains_key(key));
            }
        }
        self.entries.len() == 0
    }

    /// Sets the value at `key`.
    pub fn insert(&mut self, key: String, value: V)
        ensures
            final(self)@ == old(self)@.insert(key@, value),
    {
        match self.place(&key) {
            Some(i) => {
                proof {
                    lemma_map_update(self.entries@, i as int, (key, value));
                }
                self.entries.set(i, (key, value));
            },
            None => {
                let ghost before = self.entries@;
                self.entries.push((key, value));
                proof {
                    assert(self.entries@.drop_last() =~= before);
                }
            },
        }
    }
}

impl Table<Num> {
    /// The number at `key`.
    pub fn number(&self, key: &str) -> (r: Option<Num>)
        ensures
            match r {
                Some(v) => self@.contains_key(key@) && v == self@[key@],
                None => !self@.contains_key(key@),
            },
    {
        match self.get(key) {
            Some(v) => Some(*v),
            None => None,
        }
    }

    /// Sets the number at `key`.
    pub fn put(&mut self, key: &str, value: Num)
        ensures
            final(self)@ == old(self)@.insert(key@, value),
    {
        self.insert(copy_text(key), value)
    }
}

} // verus!
