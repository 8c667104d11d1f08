//! A map keyed by names, kept as a list of entries in insertion order.

use vstd::prelude::*;

verus! {

/// The entries with key `k`, as a map from names to values: each name maps
/// to the value of the entry that carries it.
pub open spec fn entries_map<W>(s: Seq<(Seq<char>, W)>) -> Map<Seq<char>, W> {
    Map::new(
        |k: Seq<char>| exists|i: int| 0 <= i < s.len() && s[i].0 == k,
        |k: Seq<char>| s[choose|i: int| 0 <= i < s.len() && s[i].0 == k].1,
    )
}

/// No name occurs twice.
pub open spec fn keys_unique<W>(s: Seq<(Seq<char>, W)>) -> bool {
    forall|i: int, j: int| 0 <= i < s.len() && 0 <= j < s.len() && i != j ==> s[i].0 != s[j].0
}

/// The entries after inserting `k ↦ w`: the entry for `k` takes the new value
/// in place, or a new entry is added at the end.
pub open spec fn insert_entry<W>(s: Seq<(Seq<char>, W)>, k: Seq<char>, w: W) -> Seq<(Seq<char>, W)> {
    if exists|i: int| 0 <= i < s.len() && s[i].0 == k {
        s.update(choose|i: int| 0 <= i < s.len() && s[i].0 == k, (k, w))
    } else {
        s.push((k, w))
    }
}

pub proof fn lemma_entries_map_at<W>(s: Seq<(Seq<char>, W)>, i: int)
    requires
        keys_unique(s),
        0 <= i < s.len(),
    ensures
        entries_map(s).contains_key(s[i].0),
        entries_map(s)[s[i].0] == s[i].1,
{
    let k = s[i].0;
    assert(exists|j: int| 0 <= j < s.len() && s[j].0 == k);
    let j = choose|j: int| 0 <= j < s.len() && s[j].0 == k;
    assert(j == i);
}

pub proof fn lemma_insert_entry<W>(s: Seq<(Seq<char>, W)>, k: Seq<char>, w: W)
    requires
        keys_unique(s),
    ensures
        keys_unique(insert_entry(s, k, w)),
        entries_map(insert_entry(s, k, w)) == entries_map(s).insert(k, w),
        insert_entry(s, k, w).len() == s.len() + if entries_map(s).contains_key(k) {
            0int
        } else {
            1int
        },
{
    let t = insert_entry(s, k, w);
    let m = entries_map(s).insert(k, w);
    if exists|i: int| 0 <= i < s.len() && s[i].0 == k {
        let i = choose|i: int| 0 <= i < s.len() && s[i].0 == k;
        assert forall|a: int| 0 <= a < t.len() implies t[a].0 == s[a].0 by {}
        assert forall|key: Seq<char>| #[trigger] entries_map(t).contains_key(key) <==> m.contains_key(key) by {
            if m.contains_key(key) && key != k {
                let j = choose|j: int| 0 <= j < s.len() && s[j].0 == key;
                assert(t[j].0 == key);
            }
            if entries_map(t).contains_key(key) {
                let j = choose|j: int| 0 <= j < t.len() && t[j].0 == key;
                assert(s[j].0 == key);
            }
        }
        assert forall|key: Seq<char>| #[trigger] m.contains_key(key) implies entries_map(t)[key]
            == m[key] by {
            let j = choose|j: int| 0 <= j < t.len() && t[j].0 == key;
            assert(t[j].0 == key);
            if key == k {
                assert(j == i);
            } else {
                lemma_entries_map_at(s, j);
            }
        }
        assert(entries_map(t) =~= m);
    } else {
        assert(t[s.len() as int].0 == k);
        assert forall|key: Seq<char>| #[trigger] entries_map(t).contains_key(key) <==> m.contains_key(key) by {
            if m.contains_key(key) && key != k {
                let j = choose|j: int| 0 <= j < s.len() && s[j].0 == key;
                assert(t[j].0 == key);
            }
            if entries_map(t).contains_key(key) {
                let j = choose|j: int| 0 <= j < t.len() && t[j].0 == key;
                if j < s.len() {
                    assert(s[j].0 == key);
                }
            }
        }
        assert forall|key: Seq<char>| #[trigger] m.contains_key(key) implies entries_map(t)[key]
            == m[key] by {
            if key == k {
                assert(t[s.len() as int].0 == k);
                let j = choose|j: int| 0 <= j < t.len() && t[j].0 == key;
                if j < s.len() {
                    assert(s[j].0 == k);
                }
                assert(j == s.len());
            } else {
                let i = choose|i: int| 0 <= i < s.len() && s[i].0 == key;
                assert(t[i].0 == key);
                let j = choose|j: int| 0 <= j < t.len() && t[j].0 == key;
                if j == s.len() {
                    assert(t[j].0 == k);
                }
                assert(j < s.len());
                lemma_entries_map_at(s, j);
            }
        }
        assert(entries_map(t) =~= m);
    }
    assert forall|a: int, b: int| 0 <= a < t.len() && 0 <= b < t.len() && a != b implies t[a].0
        != t[b].0 by {
        if a < s.len() && b < s.len() {
            assert(s[a].0 != s[b].0);
        }
    }
}

/// A map from names to values that keeps its entries in the order in which
/// their names were first inserted.
#[derive(Debug)]
pub struct NameMap<V: DeepView> {
    entries: Vec<(String, V)>,
}

impl<V: DeepView> NameMap<V> {
    /// The entries as names and values, in order.
    pub closed spec fn entry_seq(&self) -> Seq<(Seq<char>, V::V)> {
        self.entries@.map_values(|e: (String, V)| (e.0@, e.1.deep_view()))
    }

    #[verifier::type_invariant]
    closed spec fn wf(&self) -> bool {
        keys_unique(self.entry_seq())
    }

    /// An empty map.
    pub fn new() -> (r: Self)
        ensures
            r.entry_seq() == Seq::<(Seq<char>, V::V)>::empty(),
            r@ == Map::<Seq<char>, V::V>::empty(),
    {
        let r = NameMap { entries: Vec::new() };
        assert(r.entry_seq() =~= Seq::<(Seq<char>, V::V)>::empty());
        assert(r@ =~= Map::<Seq<char>, V::V>::empty());
        r
    }

    /// The number of names.
    pub fn len(&self) -> (n: usize)
        ensures
            n == self.entry_seq().len(),
            n == self@.len(),
    {
        proof {
            use_type_invariant(self);
            self.lemma_len();
        }
        self.entries.len()
    }

    proof fn lemma_len(&self)
        requires
            keys_unique(self.entry_seq()),
        ensures
            self@.dom().len() == self.entry_seq().len(),
            self@.dom().finite(),
    {
        let s = self.entry_seq();
        let keys = s.map_values(|e: (Seq<char>, V::V)| e.0);
        assert(self@.dom() =~= keys.to_set()) by {
            assert forall|k: Seq<char>| self@.dom().contains(k) implies keys.to_set().contains(k) by {
                let i = choose|i: int| 0 <= i < s.len() && s[i].0 == k;
                assert(keys[i] == k);
            }
            assert forall|k: Seq<char>| keys.to_set().contains(k) implies self@.dom().contains(k) by {
                let i = choose|i: int| 0 <= i < keys.len() && keys[i] == k;
                assert(s[i].0 == k);
            }
        }
        assert(keys.no_duplicates()) by {
            assert forall|i: int, j: int| 0 <= i < keys.len() && 0 <= j < keys.len() && i != j implies keys[i]
                != keys[j] by {
                assert(s[i].0 != s[j].0);
            }
        }
        keys.unique_seq_to_set();
    }

    /// Where the entry for `k` stands, if there is one.
    fn index_of(&self, k: &String) -> (r: Option<usize>)
        ensures
            match r {
                Some(i) => i < self.entry_seq().len() && self.entry_seq()[i as int].0 == k@,
                None => !self@.contains_key(k@),
            },
    {
        let mut i: usize = 0;
        while i < self.entries.len()
            invariant
                i <= self.entries.len(),
                forall|j: int| 0 <= j < i ==> self.entry_seq()[j].0 != k@,
            decreases self.entries.len() - i,
        {
            if self.entries[i].0 == *k {
                return Some(i);
            }
            i = i + 1;
        }
        None
    }

    /// Whether `k` has an entry.
    pub fn contains_key(&self, k: &String) -> (b: bool)
        ensures
            b == self@.contains_key(k@),
    {
        match self.index_of(k) {
            Some(i) => {
                proof {
                    use_type_invariant(self);
                    lemma_entries_map_at(self.entry_seq(), i as int);
                }
                true
            },
            None => false,
        }
    }

    /// The value stored under `k`.
    pub fn get(&self, k: &String) -> (r: Option<&V>)
        ensures
            match r {
                Some(v) => self@.contains_key(k@) && v.deep_view() == self@[k@],
                None => !self@.contains_key(k@),
            },
    {
        match self.index_of(k) {
            Some(i) => {
                proof {
                    use_type_invariant(self);
                    lemma_entries_map_at(self.entry_seq(), i as int);
                }
                Some(&self.entries[i].1)
            },
            None => None,
        }
    }

    /// Stores `v` under `k`, replacing the value that was there.
    pub fn insert(&mut self, k: String, v: V)
        ensures
            final(self).entry_seq() == insert_entry(old(self).entry_seq(), k@, v.deep_view()),
            final(self)@ == old(self)@.insert(k@, v.deep_view()),
    {
        proof {
            use_type_invariant(&*self);
            lemma_insert_entry(self.entry_seq(), k@, v.deep_view());
        }
        let ghost old_seq = self.entry_seq();
        let ghost kv = k@;
        let ghost vv = v.deep_view();
        let found = self.index_of(&k);
        let mut e: Vec<(String, V)> = Vec::new();
        std::mem::swap(&mut e, &mut self.entries);
        match found {
            Some(i) => {
                proof {
                    let j = choose|j: int| 0 <= j < old_seq.len() && old_seq[j].0 == kv;
                    assert(j == i);
                }
                e.set(i, (k, v));
                assert(e@.map_values(|e: (String, V)| (e.0@, e.1.deep_view())) =~= old_seq.update(
                    i as int,
                    (kv, vv),
                ));
                self.entries = e;
            },
            None => {
                assert(!(exists|j: int| 0 <= j < old_seq.len() && old_seq[j].0 == kv));
                e.push((k, v));
                assert(e@.map_values(|e: (String, V)| (e.0@, e.1.deep_view())) =~= old_seq.push(
                    (kv, vv),
                ));
                self.entries = e;
            },
        }
    }

    /// The names, in the order of their entries.
    pub fn keys(&self) -> (r: Vec<String>)
        ensures
            r@.map_values(|s: String| s@) == self.entry_seq().map_values(
                |e: (Seq<char>, V::V)| e.0,
            ),
            r@.map_values(|s: String| s@).no_duplicates(),
    {
        proof {
            use_type_invariant(self);
        }
        let mut r: Vec<String> = Vec::new();
        let mut i: usize = 0;
        while i < self.entries.len()
            invariant
                i <= self.entries.len(),
                r@.map_values(|s: String| s@) == self.entry_seq().take(i as int).map_values(
                    |e: (Seq<char>, V::V)| e.0,
                ),
            decreases self.entries.len() - i,
        {
            let k = self.entries[i].0.clone();
            assert(self.entry_seq()[i as int].0 == k@);
            let ghost before = r@.map_values(|s: String| s@);
            r.push(k);
            assert(r@.map_values(|s: String| s@) =~= before.push(k@));
            assert(self.entry_seq().take(i + 1) =~= self.entry_seq().take(i as int).push(
                self.entry_seq()[i as int],
            ));
            i = i + 1;
            assert(r@.map_values(|s: String| s@) =~= self.entry_seq().take(i as int).map_values(
                |e: (Seq<char>, V::V)| e.0,
            ));
        }
        assert(self.entry_seq().take(i as int) =~= self.entry_seq());
        proof {
            let ks = r@.map_values(|s: String| s@);
            assert forall|a: int, b: int| 0 <= a < ks.len() && 0 <= b < ks.len() && a != b implies ks[a]
                != ks[b] by {
                assert(ks[a] == self.entry_seq()[a].0);
                assert(ks[b] == self.entry_seq()[b].0);
            }
        }
        r
    }

    /// The entries, in order.
    pub fn entries(&self) -> (r: &Vec<(String, V)>)
        ensures
            r@.map_values(|e: (String, V)| (e.0@, e.1.deep_view())) == self.entry_seq(),
    {
        &self.entries
    }
}

impl<V: DeepView> View for NameMap<V> {
    type V = Map<Seq<char>, V::V>;

    open spec fn view(&self) -> Map<Seq<char>, V::V> {
        entries_map(self.entry_seq())
    }
}

impl NameMap<Vec<String>> {
    /// Appends `item` to the list stored under `k`, which starts empty when
    /// `k` has no entry yet.
    pub fn push_to(&mut self, k: &String, item: String)
        ensures
            final(self)@ == old(self)@.insert(
                k@,
                (if old(self)@.contains_key(k@) {
                    old(self)@[k@]
                } else {
                    Seq::empty()
                }).push(item@),
            ),
    {
        let mut list: Vec<String> = match self.get(k) {
            Some(l) => {
                let c = l.clone();
                assert(c.deep_view() =~= l.deep_view()) by {
                    assert forall|i: int| 0 <= i < c.len() implies c@[i] == l@[i] by {
                        assert(cloned::<String>(l[i], c[i]));
                    }
                }
                c
            },
            None => Vec::new(),
        };
        let ghost before = list.deep_view();
        assert(before == (if self@.contains_key(k@) {
            self@[k@]
        } else {
            Seq::empty()
        }));
        let ghost iv = item@;
        list.push(item);
        assert(list.deep_view() =~= before.push(iv));
        let key = k.clone();
        assert(key@ == k@);
        self.insert(key, list);
    }
}

} // verus!
