//! A small text-keyed map (configuration entries, inline-table rows):
//! each key occurs once, and inserting an existing key replaces its value.

use vstd::prelude::*;
use crate::strings::str_eq;

verus! {

/// The map that a list of entries denotes: later entries win.
pub open spec fn map_of(s: Seq<(String, String)>) -> Map<Seq<char>, Seq<char>>
    decreases s.len(),
{
    if s.len() == 0 {
        Map::empty()
    } else {
        map_of(s.drop_last()).insert(s.last().0@, s.last().1@)
    }
}

/// No key occurs twice among the entries.
pub open spec fn keys_distinct(s: Seq<(String, String)>) -> bool {
    forall|i: int, j: int| 0 <= i < j < s.len() ==> s[i].0@ != s[j].0@
}

/// A key is in the map exactly when some entry holds it.
proof fn lemma_map_of_dom(s: Seq<(String, String)>, k: Seq<char>)
    ensures
        map_of(s).contains_key(k) <==> exists|i: int| 0 <= i < s.len() && s[i].0@ == k,
    decreases s.len(),
{
    if s.len() > 0 {
        lemma_map_of_dom(s.drop_last(), k);
        if map_of(s.drop_last()).contains_key(k) {
            let i = choose|i: int| 0 <= i < s.drop_last().len() && s.drop_last()[i].0@ == k;
            assert(s[i].0@ == k);
        }
        if exists|i: int| 0 <= i < s.len() && s[i].0@ == k {
            let i = choose|i: int| 0 <= i < s.len() && s[i].0@ == k;
            if i < s.len() - 1 {
                assert(s.drop_last()[i].0@ == k);
            }
        }
    }
}

/// With distinct keys, the map sends each entry's key to its value.
proof fn lemma_map_of_at(s: Seq<(String, String)>, p: int)
    requires
        keys_distinct(s),
        0 <= p < s.len(),
    ensures
        map_of(s).contains_key(s[p].0@),
        map_of(s)[s[p].0@] == s[p].1@,
    decreases s.len(),
{
    if p < s.len() - 1 {
        assert(keys_distinct(s.drop_last()));
        lemma_map_of_at(s.drop_last(), p);
        assert(s.drop_last()[p] == s[p]);
    }
}

/// With distinct keys, replacing the value of entry `p` replaces the value
/// of its key in the map.
proof fn lemma_map_of_update(s: Seq<(String, String)>, p: int, e: (String, String))
    requires
        keys_distinct(s),
        0 <= p < s.len(),
        e.0@ == s[p].0@,
    ensures
        map_of(s.update(p, e)) == map_of(s).insert(e.0@, e.1@),
    decreases s.len(),
{
    let t = s.update(p, e);
    if p == s.len() - 1 {
        assert(t.drop_last() =~= s.drop_last());
        assert(map_of(t) =~= map_of(s).insert(e.0@, e.1@));
    } else {
        assert(keys_distinct(s.drop_last()));
        lemma_map_of_update(s.drop_last(), p, e);
        assert(t.drop_last() =~= s.drop_last().update(p, e));
        assert(s.last().0@ != e.0@);
        assert(map_of(t) =~= map_of(s).insert(e.0@, e.1@));
    }
}

/// With distinct keys, the map has one key per entry.
proof fn lemma_map_of_len(s: Seq<(String, String)>)
    requires
        keys_distinct(s),
    ensures
        map_of(s).dom().finite(),
        map_of(s).dom().len() == s.len(),
    decreases s.len(),
{
    if s.len() > 0 {
        assert(keys_distinct(s.drop_last()));
        lemma_map_of_len(s.drop_last());
        lemma_map_of_dom(s.drop_last(), s.last().0@);
        if map_of(s.drop_last()).contains_key(s.last().0@) {
            let i = choose|i: int| 0 <= i < s.drop_last().len() && s.drop_last()[i].0@ == s.last().0@;
            assert(s[i].0@ == s[s.len() - 1].0@);
        }
    }
}

/// Values keyed by text.
#[derive(Debug)]
pub struct TextMap {
    entries: Vec<(String, String)>,
}

impl View for TextMap {
    type V = Map<Seq<char>, Seq<char>>;

    closed spec fn view(&self) -> Map<Seq<char>, Seq<char>> {
        map_of(self.entries@)
    }
}

impl TextMap {
    #[verifier::type_invariant]
    spec fn inv(self) -> bool {
        keys_distinct(self.entries@)
    }

    /// An empty map.
    pub fn new() -> (m: TextMap)
        ensures
            m@ == Map::<Seq<char>, Seq<char>>::empty(),
    {
        TextMap { entries: Vec::new() }
    }

    /// The position of the entry whose key is `key`, if any.
    fn find(&self, key: &str) -> (r: Option<usize>)
        ensures
            match r {
                Some(p) => p < self.entries@.len() && self.entries@[p as int].0@ == key@,
                None => forall|i: int| 0 <= i < self.entries@.len() ==> self.entries@[i].0@ != key@,
            },
    {
        let mut i: usize = 0;
        while i < self.entries.len()
            invariant
                i <= self.entries@.len(),
                forall|j: int| 0 <= j < i ==> self.entries@[j].0@ != key@,
            decreases self.entries@.len() - i,
        {
            if str_eq(self.entries[i].0.as_str(), key) {
                return Some(i);
            }
            i = i + 1;
        }
        None
    }

    /// The value of `key`, if it is in the map.
    pub fn get(&self, key: &str) -> (r: Option<&String>)
        ensures
            match r {
                Some(v) => self@.contains_key(key@) && self@[key@] == v@,
                None => !self@.contains_key(key@),
            },
    {
        proof {
            use_type_invariant(self);
            lemma_map_of_dom(self.entries@, key@);
        }
        match self.find(key) {
            Some(p) => {
                proof {
                    lemma_map_of_at(self.entries@, p as int);
                }
                Some(&self.entries[p].1)
            },
            None => None,
        }
    }

    /// The number of keys in the map.
    pub fn len(&self) -> (n: usize)
        ensures
            self@.dom().finite(),
            n == self@.dom().len(),
    {
        proof {
            use_type_invariant(self);
            lemma_map_of_len(self.entries@);
        }
        self.entries.len()
    }

    /// The entries of the map, each key once. Their order is the order in
    /// which the map keeps them; nothing is promised of it.
    pub fn pairs(&self) -> (p: &Vec<(String, String)>)
        ensures
            keys_distinct(p@),
            map_of(p@) == self@,
    {
        proof {
            use_type_invariant(self);
        }
        &self.entries
    }

    /// Set `key` to `value`, replacing the value it had.
    pub fn insert(&mut self, key: String, value: String)
        ensures
            final(self)@ == old(self)@.insert(key@, value@),
    {
        proof {
            use_type_invariant(&*self);
        }
        let found = self.find(key.as_str());
        let mut entries: Vec<(String, String)> = Vec::new();
        std::mem::swap(&mut entries, &mut self.entries);
        let ghost s = entries@;
        match found {
            Some(p) => {
                let e = (key, value);
                proof {
                    lemma_map_of_update(s, p as int, e);
                }
                entries.set(p, e);
                assert(entries@ == s.update(p as int, e));
            },
            None => {
                let e = (key, value);
                entries.push(e);
                assert(entries@.drop_last() =~= s);
            },
        }
        self.entries = entries;
    }
}

/// A lookup after an insert finds the inserted value under its key, and
/// finds every other key as before.
pub proof fn lookup_after_insert(m: Map<Seq<char>, Seq<char>>, key: Seq<char>, value: Seq<char>, other: Seq<char>)
    requires
        other != key,
    ensures
        m.insert(key, value).contains_key(key),
        m.insert(key, value)[key] == value,
        m.insert(key, value).contains_key(other) == m.contains_key(other),
        m.contains_key(other) ==> m.insert(key, value)[other] == m[other],
{
}

/// Inserting a key twice keeps the second value only.
pub proof fn insert_overwrites(m: Map<Seq<char>, Seq<char>>, key: Seq<char>, v1: Seq<char>, v2: Seq<char>)
    ensures
        m.insert(key, v1).insert(key, v2) == m.insert(key, v2),
{
    assert(m.insert(key, v1).insert(key, v2) =~= m.insert(key, v2));
}

} // verus!
