//! Small maps keyed by character strings.
//!
//! `StrMap` has the semantics of a `HashMap<String, V>` (a later insert of a
//! key replaces its value).  `KeyIndex` numbers distinct keys in the order of
//! their first appearance, as `map.entry(key).or_insert(map.len())` does.
use vstd::prelude::*;
use crate::text::eq_chars;

verus! {

/// Position of key `k` among `keys`, when it occurs.
pub open spec fn key_pos(keys: Seq<Vec<char>>, k: Seq<char>) -> int {
    choose|i: int| 0 <= i < keys.len() && keys[i]@ == k
}

pub open spec fn has_key(keys: Seq<Vec<char>>, k: Seq<char>) -> bool {
    exists|i: int| 0 <= i < keys.len() && keys[i]@ == k
}

pub open spec fn distinct_keys(keys: Seq<Vec<char>>) -> bool {
    forall|i: int, j: int| 0 <= i < keys.len() && 0 <= j < keys.len() && i != j ==> keys[i]@ != keys[j]@
}

/// Finds `k` among `keys`.
fn find_key(keys: &Vec<Vec<char>>, k: &[char]) -> (r: Option<usize>)
    ensures
        r matches Some(i) ==> i < keys.len() && keys@[i as int]@ == k@,
        r is None ==> !has_key(keys@, k@),
{
    let mut i: usize = 0;
    while i < keys.len()
        invariant
            i <= keys.len(),
            forall|j: int| 0 <= j < i ==> keys@[j]@ != k@,
        decreases keys.len() - i,
    {
        if eq_chars(keys[i].as_slice(), k) {
            return Some(i);
        }
        i = i + 1;
    }
    None
}

proof fn lemma_key_pos(keys: Seq<Vec<char>>, k: Seq<char>, i: int)
    requires
        distinct_keys(keys),
        0 <= i < keys.len(),
        keys[i]@ == k,
    ensures
        key_pos(keys, k) == i,
{
    assert(has_key(keys, k));
    let j = key_pos(keys, k);
    assert(0 <= j < keys.len() && keys[j]@ == k);
}

/// A map from strings to values with `HashMap::insert` semantics.
pub struct StrMap<V> {
    keys: Vec<Vec<char>>,
    vals: Vec<V>,
}

impl<V: Copy> StrMap<V> {
    pub closed spec fn wf(&self) -> bool {
        &&& self.keys.len() == self.vals.len()
        &&& distinct_keys(self.keys@)
    }

    pub closed spec fn view(&self) -> Map<Seq<char>, V> {
        Map::new(
            |k: Seq<char>| has_key(self.keys@, k),
            |k: Seq<char>| self.vals@[key_pos(self.keys@, k)],
        )
    }

    pub fn new() -> (m: Self)
        ensures
            m.wf(),
            m.view() == Map::<Seq<char>, V>::empty(),
    {
        let m = StrMap { keys: Vec::new(), vals: Vec::new() };
        assert(m.view() =~= Map::<Seq<char>, V>::empty());
        m
    }

    /// The value stored under `k`.
    pub fn get(&self, k: &[char]) -> (r: Option<V>)
        requires
            self.wf(),
        ensures
            r == (if self.view().contains_key(k@) {
                Some(self.view()[k@])
            } else {
                None
            }),
    {
        match find_key(&self.keys, k) {
            Some(i) => {
                proof {
                    lemma_key_pos(self.keys@, k@, i as int);
                }
                Some(self.vals[i])
            },
            None => None,
        }
    }

    /// Stores `v` under `k`, replacing an earlier value.
    pub fn insert(&mut self, k: &[char], v: V)
        requires
            old(self).wf(),
        ensures
            final(self).wf(),
            final(self).view() == old(self).view().insert(k@, v),
    {
        let ghost old_keys = self.keys@;
        let ghost old_view = self.view();
        match find_key(&self.keys, k) {
            Some(i) => {
                self.vals.set(i, v);
                proof {
                    lemma_key_pos(old_keys, k@, i as int);
                    assert forall|key: Seq<char>| #[trigger] has_key(old_keys, key) implies self.vals@[key_pos(old_keys, key)] == (if key == k@ { v } else { old_view[key] }) by {
                        let j = key_pos(old_keys, key);
                        lemma_key_pos(old_keys, key, j);
                    }
                    assert(self.view() =~= old_view.insert(k@, v));
                }
            },
            None => {
                let mut kc: Vec<char> = Vec::new();
                let mut j: usize = 0;
                while j < k.len()
                    invariant
                        j <= k.len(),
                        kc@ == k@.take(j as int),
                    decreases k.len() - j,
                {
                    kc.push(k[j]);
                    j = j + 1;
                    assert(k@.take(j as int) == k@.take(j - 1).push(k@[j - 1]));
                }
                assert(k@.take(k.len() as int) =~= k@);
                self.keys.push(kc);
                self.vals.push(v);
                proof {
                    let nk = self.keys@;
                    assert(distinct_keys(nk)) by {
                        assert forall|a: int, b: int| 0 <= a < nk.len() && 0 <= b < nk.len() && a != b implies nk[a]@ != nk[b]@ by {
                            if a < old_keys.len() && b < old_keys.len() {
                                assert(nk[a] == old_keys[a] && nk[b] == old_keys[b]);
                            } else if a == old_keys.len() {
                                assert(nk[b] == old_keys[b]);
                            } else {
                                assert(nk[a] == old_keys[a]);
                            }
                        }
                    }
                    assert forall|key: Seq<char>| has_key(nk, key) == (has_key(old_keys, key) || key == k@) by {
                        if has_key(old_keys, key) {
                            let p = choose|p: int| 0 <= p < old_keys.len() && old_keys[p]@ == key;
                            assert(nk[p] == old_keys[p]);
                        }
                        if key == k@ {
                            assert(nk[old_keys.len() as int]@ == key);
                        }
                        if has_key(nk, key) {
                            let p = choose|p: int| 0 <= p < nk.len() && nk[p]@ == key;
                            if p < old_keys.len() {
                                assert(nk[p] == old_keys[p]);
                            }
                        }
                    }
                    assert forall|key: Seq<char>| has_key(nk, key) implies self.vals@[key_pos(nk, key)] == (if key == k@ { v } else { old_view[key] }) by {
                        if key == k@ {
                            lemma_key_pos(nk, key, old_keys.len() as int);
                        } else {
                            let p = key_pos(old_keys, key);
                            lemma_key_pos(old_keys, key, p);
                            assert(nk[p] == old_keys[p]);
                            lemma_key_pos(nk, key, p);
                        }
                    }
                    assert(self.view() =~= old_view.insert(k@, v));
                }
            },
        }
    }
}

/// No key occurs twice.
pub open spec fn distinct_seq(s: Seq<Seq<char>>) -> bool {
    forall|i: int, j: int| 0 <= i < s.len() && 0 <= j < s.len() && i != j ==> s[i] != s[j]
}

/// Distinct keys numbered in the order they were first seen.
pub struct KeyIndex {
    keys: Vec<Vec<char>>,
}

impl KeyIndex {
    pub closed spec fn wf(&self) -> bool {
        distinct_keys(self.keys@)
    }

    /// The keys, in order of first appearance; a key's number is its
    /// position.
    pub closed spec fn view(&self) -> Seq<Seq<char>> {
        self.keys@.map_values(|k: Vec<char>| k@)
    }

    pub proof fn lemma_distinct(&self)
        requires
            self.wf(),
        ensures
            distinct_seq(self.view()),
    {
        assert forall|i: int, j: int| 0 <= i < self.view().len() && 0 <= j < self.view().len() && i != j implies self.view()[i] != self.view()[j] by {
            assert(self.view()[i] == self.keys@[i]@);
            assert(self.view()[j] == self.keys@[j]@);
        }
    }

    pub fn new() -> (m: Self)
        ensures
            m.wf(),
            m.view() == Seq::<Seq<char>>::empty(),
    {
        let m = KeyIndex { keys: Vec::new() };
        assert(m.view() =~= Seq::<Seq<char>>::empty());
        m
    }

    pub fn len(&self) -> (n: usize)
        ensures
            n == self.view().len(),
    {
        self.keys.len()
    }

    /// The number of `k`, adding `k` at the end when it is new
    /// (`entry(k).or_insert(len)`).
    pub fn get_or_insert(&mut self, k: &[char]) -> (id: usize)
        requires
            old(self).wf(),
            old(self).view().len() < usize::MAX,
        ensures
            final(self).wf(),
            final(self).view() == (if old(self).view().contains(k@) {
                old(self).view()
            } else {
                old(self).view().push(k@)
            }),
            id < final(self).view().len(),
            final(self).view()[id as int] == k@,
    {
        let ghost old_keys = self.keys@;
        match find_key(&self.keys, k) {
            Some(i) => {
                assert(self.view()[i as int] == k@);
                i
            },
            None => {
                proof {
                    assert(!self.view().contains(k@)) by {
                        if self.view().contains(k@) {
                            let p = choose|p: int| 0 <= p < self.view().len() && self.view()[p] == k@;
                            assert(old_keys[p]@ == k@);
                        }
                    }
                }
                let mut kc: Vec<char> = Vec::new();
                let mut j: usize = 0;
                while j < k.len()
                    invariant
                        j <= k.len(),
                        kc@ == k@.take(j as int),
                    decreases k.len() - j,
                {
                    kc.push(k[j]);
                    j = j + 1;
                    assert(k@.take(j as int) == k@.take(j - 1).push(k@[j - 1]));
                }
                assert(k@.take(k.len() as int) =~= k@);
                let id = self.keys.len();
                self.keys.push(kc);
                proof {
                    let nk = self.keys@;
                    assert forall|a: int, b: int| 0 <= a < nk.len() && 0 <= b < nk.len() && a != b implies nk[a]@ != nk[b]@ by {
                        if a < old_keys.len() && b < old_keys.len() {
                            assert(nk[a] == old_keys[a] && nk[b] == old_keys[b]);
                        } else if a == old_keys.len() {
                            assert(nk[b] == old_keys[b]);
                        } else {
                            assert(nk[a] == old_keys[a]);
                        }
                    }
                    assert(self.view() =~= old_keys.map_values(|k: Vec<char>| k@).push(k@));
                }
                id
            },
        }
    }

    /// The number of `k`, if it has one.
    pub fn find(&self, k: &[char]) -> (r: Option<usize>)
        requires
            self.wf(),
        ensures
            r matches Some(i) ==> i < self.view().len() && self.view()[i as int] == k@,
            r is None ==> !self.view().contains(k@),
    {
        match find_key(&self.keys, k) {
            Some(i) => Some(i),
            None => {
                proof {
                    if self.view().contains(k@) {
                        let p = choose|p: int| 0 <= p < self.view().len() && self.view()[p] == k@;
                        assert(self.keys@[p]@ == k@);
                    }
                }
                None
            },
        }
    }

    /// The key numbered `i`.
    pub fn key(&self, i: usize) -> (k: &Vec<char>)
        requires
            i < self.view().len(),
        ensures
            k@ == self.view()[i as int],
    {
        &self.keys[i]
    }
}

} // verus!
