//! Tables from keys to values kept as association lists in insertion order,
//! and the table of mappings from repository files to paths.

use vstd::prelude::*;

verus! {

/// The characters of each string.
pub open spec fn strings_view(v: Seq<String>) -> Seq<Seq<char>> {
    v.map_values(|s: String| s@)
}

/// No two entries share a key.
pub open spec fn keys_distinct<V>(s: Seq<(Seq<char>, V)>) -> bool {
    forall|i: int, j: int| 0 <= i < j < s.len() ==> s[i].0 != s[j].0
}

/// The map of an association list; a later entry wins over an earlier one.
pub open spec fn seq_to_map<V>(s: Seq<(Seq<char>, V)>) -> Map<Seq<char>, V>
    decreases s.len(),
{
    if s.len() == 0 {
        Map::empty()
    } else {
        seq_to_map(s.drop_last()).insert(s.last().0, s.last().1)
    }
}

/// A key is in the map exactly when some entry has it.
pub proof fn lemma_seq_to_map_dom<V>(s: Seq<(Seq<char>, V)>, k: Seq<char>)
    ensures
        seq_to_map(s).contains_key(k) <==> exists|i: int| 0 <= i < s.len() && s[i].0 == k,
    decreases s.len(),
{
    if s.len() > 0 {
        lemma_seq_to_map_dom(s.drop_last(), k);
        if seq_to_map(s).contains_key(k) && k != s.last().0 {
            let i = choose|i: int| 0 <= i < s.drop_last().len() && s.drop_last()[i].0 == k;
            assert(s[i].0 == k);
        }
        if exists|i: int| 0 <= i < s.len() && s[i].0 == k {
            let i = choose|i: int| 0 <= i < s.len() && s[i].0 == k;
            if i < s.len() - 1 {
                assert(s.drop_last()[i].0 == k);
            }
        }
    }
}

/// With distinct keys, the map gives each entry's value under its key.
pub proof fn lemma_seq_to_map_index<V>(s: Seq<(Seq<char>, V)>, i: int)
    requires
        keys_distinct(s),
        0 <= i < s.len(),
    ensures
        seq_to_map(s).contains_key(s[i].0),
        seq_to_map(s)[s[i].0] == s[i].1,
    decreases s.len(),
{
    if i < s.len() - 1 {
        let t = s.drop_last();
        assert(t[i] == s[i]);
        assert(keys_distinct(t));
        lemma_seq_to_map_index(t, i);
        assert(s.last().0 != s[i].0);
    }
}

/// Replacing the value of an existing key updates the map at that key only.
pub proof fn lemma_seq_to_map_update<V>(s: Seq<(Seq<char>, V)>, i: int, v: V)
    requires
        keys_distinct(s),
        0 <= i < s.len(),
    ensures
        seq_to_map(s.update(i, (s[i].0, v))) =~= seq_to_map(s).insert(s[i].0, v),
        keys_distinct(s.update(i, (s[i].0, v))),
    decreases s.len(),
{
    let u = s.update(i, (s[i].0, v));
    if i == s.len() - 1 {
        assert(u.drop_last() =~= s.drop_last());
    } else {
        let t = s.drop_last();
        assert(keys_distinct(t));
        lemma_seq_to_map_update(t, i, v);
        assert(u.drop_last() =~= t.update(i, (t[i].0, v)));
        assert(s.last().0 != s[i].0);
    }
}

/// Some entry has key `k`.
pub open spec fn has_key<V>(s: Seq<(Seq<char>, V)>, k: Seq<char>) -> bool {
    exists|i: int| 0 <= i < s.len() && s[i].0 == k
}

/// The position of an entry with key `k`.
pub open spec fn key_index<V>(s: Seq<(Seq<char>, V)>, k: Seq<char>) -> int {
    choose|i: int| 0 <= i < s.len() && s[i].0 == k
}

/// Setting `k` to `v` in an association list: the entry with key `k` gets the
/// value `v` in place; a new key goes last.
pub open spec fn assoc_insert<V>(s: Seq<(Seq<char>, V)>, k: Seq<char>, v: V) -> Seq<(Seq<char>, V)> {
    if has_key(s, k) {
        s.update(key_index(s, k), (k, v))
    } else {
        s.push((k, v))
    }
}

/// The association list made by setting each entry of `es` in turn.
pub open spec fn table_seq<V>(es: Seq<(Seq<char>, V)>) -> Seq<(Seq<char>, V)>
    decreases es.len(),
{
    if es.len() == 0 {
        Seq::empty()
    } else {
        assoc_insert(table_seq(es.drop_last()), es.last().0, es.last().1)
    }
}

/// The first position whose key is `key`, if any.
pub(crate) fn find_key<V>(entries: &Vec<(String, V)>, key: &String) -> (res: Option<usize>)
    ensures
        res matches Some(i) ==> i < entries@.len() && entries@[i as int].0@ == key@,
        res is None ==> forall|i: int| 0 <= i < entries@.len() ==> entries@[i].0@ != key@,
{
    let n = entries.len();
    let mut i: usize = 0;
    while i < n
        invariant
            n == entries@.len(),
            i <= n,
            forall|j: int| 0 <= j < i ==> entries@[j].0@ != key@,
        decreases n - i,
    {
        if entries[i].0 == *key {
            return Some(i);
        }
        i += 1;
    }
    None
}

/// A table from keys to lists of paths, kept in insertion order, with no key
/// twice.
pub struct Mappings {
    entries: Vec<(String, Vec<String>)>,
}

impl Mappings {
    /// The entries as plain values, in order.
    pub closed spec fn entry_seq(&self) -> Seq<(Seq<char>, Seq<Seq<char>>)> {
        self.entries@.map_values(|e: (String, Vec<String>)| (e.0@, strings_view(e.1@)))
    }

    /// Well-formed: no key occurs twice.
    pub open spec fn wf(&self) -> bool {
        keys_distinct(self.entry_seq())
    }

    /// An empty table.
    pub fn new() -> (m: Mappings)
        ensures
            m.wf(),
            m.entry_seq() == Seq::<(Seq<char>, Seq<Seq<char>>)>::empty(),
            m@ == Map::<Seq<char>, Seq<Seq<char>>>::empty(),
    {
        let m = Mappings { entries: Vec::new() };
        assert(m.entry_seq() =~= Seq::<(Seq<char>, Seq<Seq<char>>)>::empty());
        m
    }

    /// The position of `key`, if it is present.
    fn find(&self, key: &String) -> (res: Option<usize>)
        ensures
            res matches Some(i) ==> i < self.entry_seq().len() && self.entry_seq()[i as int].0 == key@,
            res is None ==> forall|i: int| 0 <= i < self.entry_seq().len() ==> self.entry_seq()[i].0 != key@,
    {
        find_key(&self.entries, key)
    }

    /// The number of entries.
    pub fn len(&self) -> (n: usize)
        ensures
            n == self.entry_seq().len(),
    {
        self.entries.len()
    }

    /// The key of the entry at position `i`.
    pub fn key_at(&self, i: usize) -> (k: &String)
        requires
            i < self.entry_seq().len(),
        ensures
            k@ == self.entry_seq()[i as int].0,
    {
        &self.entries[i].0
    }

    /// The paths of the entry at position `i`.
    pub fn paths_at(&self, i: usize) -> (v: &Vec<String>)
        requires
            i < self.entry_seq().len(),
        ensures
            strings_view(v@) == self.entry_seq()[i as int].1,
    {
        &self.entries[i].1
    }

    /// The paths under `key`, if any.
    pub fn get(&self, key: &str) -> (res: Option<&Vec<String>>)
        requires
            self.wf(),
        ensures
            res is Some <==> self@.contains_key(key@),
            res matches Some(v) ==> strings_view(v@) == self@[key@],
    {
        let k = key.to_owned();
        match self.find(&k) {
            Some(i) => {
                proof {
                    lemma_seq_to_map_index(self.entry_seq(), i as int);
                }
                Some(&self.entries[i].1)
            },
            None => {
                proof {
                    lemma_seq_to_map_dom(self.entry_seq(), key@);
                }
                None
            },
        }
    }

    /// Whether `key` is present.
    pub fn contains_key(&self, key: &str) -> (b: bool)
        requires
            self.wf(),
        ensures
            b == self@.contains_key(key@),
    {
        self.get(key).is_some()
    }

    /// Sets the paths under `key`, replacing those it had; a new key goes last.
    pub fn insert(&mut self, key: String, value: Vec<String>)
        requires
            old(self).wf(),
        ensures
            final(self).wf(),
            final(self)@ == old(self)@.insert(key@, strings_view(value@)),
            final(self).entry_seq() == assoc_insert(old(self).entry_seq(), key@, strings_view(value@)),
    {
        let ghost old_seq = self.entry_seq();
        let ghost kv = key@;
        let ghost vv = strings_view(value@);
        match self.find(&key) {
            Some(i) => {
                proof {
                    lemma_seq_to_map_update(old_seq, i as int, vv);
                    lemma_seq_to_map_index(old_seq, i as int);
                }
                self.entries.set(i, (key, value));
                assert(self.entry_seq() =~= old_seq.update(i as int, (kv, vv)));
                assert(has_key(old_seq, kv));
                assert(key_index(old_seq, kv) == i);
            },
            None => {
                proof {
                    lemma_seq_to_map_dom(old_seq, kv);
                }
                self.entries.push((key, value));
                assert(self.entry_seq() =~= old_seq.push((kv, vv)));
                assert(!has_key(old_seq, kv));
                assert(self.entry_seq().drop_last() =~= old_seq);
            },
        }
    }
}

impl View for Mappings {
    type V = Map<Seq<char>, Seq<Seq<char>>>;

    open spec fn view(&self) -> Map<Seq<char>, Seq<Seq<char>>> {
        seq_to_map(self.entry_seq())
    }
}


/// Every entry of a table made by `table_seq` is one of the entries it was made of.
pub(crate) proof fn lemma_table_seq_entries<V>(es: Seq<(Seq<char>, V)>, i: int)
    requires
        0 <= i < table_seq(es).len(),
    ensures
        exists|j: int| 0 <= j < es.len() && es[j] == table_seq(es)[i],
    decreases es.len(),
{
    let t = table_seq(es.drop_last());
    let k = es.last().0;
    let v = es.last().1;
    if has_key(t, k) {
        let ki = key_index(t, k);
        if i == ki {
            assert(es[es.len() - 1] == table_seq(es)[i]);
        } else {
            lemma_table_seq_entries(es.drop_last(), i);
            let j = choose|j: int| 0 <= j < es.drop_last().len() && es.drop_last()[j] == t[i];
            assert(es[j] == table_seq(es)[i]);
        }
    } else {
        if i == t.len() {
            assert(es[es.len() - 1] == table_seq(es)[i]);
        } else {
            lemma_table_seq_entries(es.drop_last(), i);
            let j = choose|j: int| 0 <= j < es.drop_last().len() && es.drop_last()[j] == t[i];
            assert(es[j] == table_seq(es)[i]);
        }
    }
}

/// A table made by `table_seq` has no key twice.
pub proof fn lemma_table_seq_distinct<V>(es: Seq<(Seq<char>, V)>)
    ensures
        keys_distinct(table_seq(es)),
    decreases es.len(),
{
    if es.len() > 0 {
        let t = table_seq(es.drop_last());
        lemma_table_seq_distinct(es.drop_last());
        let k = es.last().0;
        if !has_key(t, k) {
            let u = t.push((k, es.last().1));
            assert forall|i: int, j: int| 0 <= i < j < u.len() implies u[i].0 != u[j].0 by {
                if j == t.len() {
                    assert(t[i].0 != k);
                }
            }
        }
    }
}

} // verus!
