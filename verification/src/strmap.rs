//! A map keyed by strings that remembers the order in which keys arrived.
//!
//! Its model is an association list: a sequence of (key, value) pairs in which
//! no key occurs twice. Iteration walks the pairs in that order.

use vstd::prelude::*;

verus! {

/// The keys of an association list, in order.
pub open spec fn alist_keys<T>(a: Seq<(Seq<char>, T)>) -> Seq<Seq<char>> {
    a.map_values(|e: (Seq<char>, T)| e.0)
}

/// No key occurs twice.
pub open spec fn alist_wf<T>(a: Seq<(Seq<char>, T)>) -> bool {
    forall|i: int, j: int|
        0 <= i < a.len() && 0 <= j < a.len() && i != j ==> #[trigger] a[i].0 != #[trigger] a[j].0
}

/// The key occurs in the list.
pub open spec fn alist_has<T>(a: Seq<(Seq<char>, T)>, k: Seq<char>) -> bool {
    exists|i: int| 0 <= i < a.len() && #[trigger] a[i].0 == k
}

/// The position of a key that occurs in the list.
pub open spec fn alist_index<T>(a: Seq<(Seq<char>, T)>, k: Seq<char>) -> int {
    choose|i: int| 0 <= i < a.len() && #[trigger] a[i].0 == k
}

/// The value stored under a key that occurs in the list.
pub open spec fn alist_get<T>(a: Seq<(Seq<char>, T)>, k: Seq<char>) -> T {
    a[alist_index(a, k)].1
}

/// Insertion: an existing key keeps its place and takes the new value; a new key
/// goes to the end.
pub open spec fn alist_insert<T>(a: Seq<(Seq<char>, T)>, k: Seq<char>, v: T) -> Seq<(Seq<char>, T)> {
    if alist_has(a, k) {
        a.update(alist_index(a, k), (k, v))
    } else {
        a.push((k, v))
    }
}

/// In a list without repeated keys, a position holding `k` is `alist_index`.
pub proof fn lemma_alist_index<T>(a: Seq<(Seq<char>, T)>, i: int)
    requires
        alist_wf(a),
        0 <= i < a.len(),
    ensures
        alist_has(a, a[i].0),
        alist_index(a, a[i].0) == i,
        alist_get(a, a[i].0) == a[i].1,
{
    assert(a[i].0 == a[i].0);
}

/// What `alist_has` and `alist_index` pick out.
pub proof fn lemma_alist_has<T>(a: Seq<(Seq<char>, T)>, k: Seq<char>)
    requires
        alist_has(a, k),
    ensures
        0 <= alist_index(a, k) < a.len(),
        a[alist_index(a, k)].0 == k,
{
}

/// Insertion keeps keys unique, and reading back gives what was written.
pub proof fn lemma_alist_insert<T>(a: Seq<(Seq<char>, T)>, k: Seq<char>, v: T)
    requires
        alist_wf(a),
    ensures
        alist_wf(alist_insert(a, k, v)),
        alist_has(alist_insert(a, k, v), k),
        alist_get(alist_insert(a, k, v), k) == v,
        forall|k2: Seq<char>| k2 != k ==> (alist_has(alist_insert(a, k, v), k2) == alist_has(a, k2)),
        forall|k2: Seq<char>|
            k2 != k && alist_has(a, k2) ==> alist_get(alist_insert(a, k, v), k2) == alist_get(a, k2),
{
    let b = alist_insert(a, k, v);
    if alist_has(a, k) {
        let i = alist_index(a, k);
        assert forall|x: int, y: int| 0 <= x < b.len() && 0 <= y < b.len() && x != y implies #[trigger] b[x].0 != #[trigger] b[y].0 by {
            assert(a[x].0 == b[x].0);
            assert(a[y].0 == b[y].0);
        }
        lemma_alist_index(b, i);
        assert forall|k2: Seq<char>| k2 != k implies (alist_has(b, k2) == alist_has(a, k2)) by {
            if alist_has(a, k2) {
                let j = alist_index(a, k2);
                assert(b[j].0 == k2);
            }
            if alist_has(b, k2) {
                let j = alist_index(b, k2);
                assert(a[j].0 == k2);
            }
        }
        assert forall|k2: Seq<char>| k2 != k && alist_has(a, k2) implies alist_get(b, k2) == alist_get(a, k2) by {
            let j = alist_index(a, k2);
            lemma_alist_index(a, j);
            assert(b[j] == a[j]);
            lemma_alist_index(b, j);
        }
    } else {
        assert forall|x: int, y: int| 0 <= x < b.len() && 0 <= y < b.len() && x != y implies #[trigger] b[x].0 != #[trigger] b[y].0 by {
            if x == a.len() {
                assert(a[y].0 == b[y].0);
            } else if y == a.len() {
                assert(a[x].0 == b[x].0);
            } else {
                assert(a[x].0 == b[x].0);
                assert(a[y].0 == b[y].0);
            }
        }
        lemma_alist_index(b, a.len() as int);
        assert forall|k2: Seq<char>| k2 != k implies (alist_has(b, k2) == alist_has(a, k2)) by {
            if alist_has(a, k2) {
                let j = alist_index(a, k2);
                assert(b[j].0 == k2);
            }
            if alist_has(b, k2) {
                let j = alist_index(b, k2);
                assert(a[j].0 == k2);
            }
        }
        assert forall|k2: Seq<char>| k2 != k && alist_has(a, k2) implies alist_get(b, k2) == alist_get(a, k2) by {
            let j = alist_index(a, k2);
            lemma_alist_index(a, j);
            assert(b[j] == a[j]);
            lemma_alist_index(b, j);
        }
    }
}

/// A map from strings to values that keeps its keys in arrival order.
#[derive(Clone, Debug)]
pub struct StrMap<V> {
    entries: Vec<(String, V)>,
}

impl<V: View> View for StrMap<V> {
    type V = Seq<(Seq<char>, V::V)>;

    closed spec fn view(&self) -> Seq<(Seq<char>, V::V)> {
        self.entries@.map_values(|e: (String, V)| (e.0@, e.1@))
    }
}

impl<V> StrMap<V> {
    /// The key strings themselves, in order.
    pub closed spec fn key_strings(&self) -> Seq<String> {
        self.entries@.map_values(|e: (String, V)| e.0)
    }
}

impl<V: View> StrMap<V> {
    /// The key strings are the keys of the model.
    pub proof fn lemma_key_strings(&self)
        ensures
            self.key_strings().len() == self@.len(),
            forall|i: int| 0 <= i < self@.len() ==> #[trigger] self.key_strings()[i]@ == self@[i].0,
    {
    }

    /// No key occurs twice.
    pub open spec fn wf(&self) -> bool {
        alist_wf(self@)
    }

    /// An empty map.
    pub fn new() -> (res: Self)
        ensures
            res@ == Seq::<(Seq<char>, V::V)>::empty(),
            res.wf(),
    {
        let res = StrMap { entries: Vec::new() };
        assert(res@ =~= Seq::<(Seq<char>, V::V)>::empty());
        res
    }

    /// The number of keys.
    pub fn len(&self) -> (res: usize)
        ensures
            res == self@.len(),
    {
        self.entries.len()
    }

    /// The key at a position.
    pub fn key_at(&self, i: usize) -> (res: &String)
        requires
            i < self@.len(),
        ensures
            res@ == self@[i as int].0,
            *res == self.key_strings()[i as int],
    {
        &self.entries[i].0
    }

    /// The value at a position.
    pub fn value_at(&self, i: usize) -> (res: &V)
        requires
            i < self@.len(),
        ensures
            res@ == self@[i as int].1,
    {
        &self.entries[i].1
    }

    /// The position of a key, if it is present.
    pub fn index_of(&self, k: &String) -> (res: Option<usize>)
        ensures
            match res {
                Some(i) => i < self@.len() && self@[i as int].0 == k@,
                None => !alist_has(self@, k@),
            },
    {
        let mut i: usize = 0;
        while i < self.entries.len()
            invariant
                i <= self@.len(),
                self@.len() == self.entries@.len(),
                forall|j: int| 0 <= j < i ==> self@[j].0 != k@,
            decreases self.entries.len() - i,
        {
            assert(self@[i as int].0 == self.entries@[i as int].0@);
            if self.entries[i].0 == *k {
                return Some(i);
            }
            i += 1;
        }
        None
    }

    /// Whether a key is present.
    pub fn contains_key(&self, k: &String) -> (res: bool)
        ensures
            res == alist_has(self@, k@),
    {
        match self.index_of(k) {
            Some(i) => {
                assert(self@[i as int].0 == k@);
                true
            },
            None => false,
        }
    }

    /// The value under a key, if it is present.
    pub fn get(&self, k: &String) -> (res: Option<&V>)
        requires
            self.wf(),
        ensures
            match res {
                Some(v) => alist_has(self@, k@) && v@ == alist_get(self@, k@),
                None => !alist_has(self@, k@),
            },
    {
        match self.index_of(k) {
            Some(i) => {
                proof {
                    lemma_alist_index(self@, i as int);
                }
                Some(self.value_at(i))
            },
            None => None,
        }
    }

    /// Store a value under a key: an existing key keeps its position.
    pub fn insert(&mut self, k: String, v: V)
        requires
            old(self).wf(),
        ensures
            final(self).wf(),
            final(self)@ == alist_insert(old(self)@, k@, v@),
    {
        proof {
            lemma_alist_insert(self@, k@, v@);
        }
        match self.index_of(&k) {
            Some(i) => {
                proof {
                    lemma_alist_index(self@, i as int);
                }
                let ghost kv = k@;
                let ghost vv = v@;
                self.entries.remove(i);
                self.entries.insert(i, (k, v));
                assert(self@ =~= old(self)@.update(i as int, (kv, vv)));
            },
            None => {
                let ghost kv = k@;
                let ghost vv = v@;
                self.entries.push((k, v));
                assert(self@ =~= old(self)@.push((kv, vv)));
            },
        }
    }

    /// Replace the value at a position, keeping its key.
    pub fn set_value(&mut self, i: usize, v: V)
        requires
            old(self).wf(),
            i < old(self)@.len(),
        ensures
            final(self).wf(),
            final(self)@ == old(self)@.update(i as int, (old(self)@[i as int].0, v@)),
    {
        let ghost vv = v@;
        let (k, _old) = self.entries.remove(i);
        self.entries.insert(i, (k, v));
        assert(self@ =~= old(self)@.update(i as int, (old(self)@[i as int].0, vv)));
        assert forall|x: int, y: int| 0 <= x < self@.len() && 0 <= y < self@.len() && x != y implies #[trigger] self@[x].0 != #[trigger] self@[y].0 by {
            assert(old(self)@[x].0 == self@[x].0);
            assert(old(self)@[y].0 == self@[y].0);
        }
    }
}

} // verus!
