//! An insertion-ordered map over keys whose equality is decided by their views.
//!
//! The gossip structures key their state by node ids and by message ids
//! (`(origin, sequence)` pairs). `KeyMap` holds such entries in a vector with
//! no key twice, and exposes them as a mathematical `Map` from key views to
//! values. A set of keys is a `KeyMap<K, ()>`, viewed through its domain.
use vstd::prelude::*;

verus! {

/// The views of a sequence of strings.
pub open spec fn string_views(s: Seq<String>) -> Seq<Seq<char>> {
    s.map_values(|x: String| x@)
}

/// Extending a prefix by one element adds exactly that element.
pub(crate) proof fn lemma_take_grow<A>(s: Seq<A>, i: int)
    requires
        0 <= i < s.len(),
    ensures
        forall|x: A| #[trigger]
            s.take(i + 1).contains(x) <==> (s.take(i).contains(x) || x == s[i]),
{
    assert forall|x: A| #[trigger] s.take(i + 1).contains(x) <==> (s.take(i).contains(x) || x
        == s[i]) by {
        if x == s[i] {
            assert(s.take(i + 1)[i] == x);
        }
        if s.take(i).contains(x) {
            let j = choose|j: int| 0 <= j < i && s.take(i)[j] == x;
            assert(s.take(i + 1)[j] == x);
        }
        if s.take(i + 1).contains(x) {
            let t = s.take(i + 1);
            let j = choose|j: int| 0 <= j < t.len() && t[j] == x;
            if j < i {
                assert(s.take(i)[j] == x);
            }
        }
    }
}

/// Pushing an element that is not there yet keeps a sequence free of duplicates.
pub(crate) proof fn lemma_push_fresh<A>(s: Seq<A>, x: A)
    requires
        s.no_duplicates(),
        !s.contains(x),
    ensures
        s.push(x).no_duplicates(),
        forall|y: A| #[trigger] s.push(x).contains(y) <==> (s.contains(y) || y == x),
{
    assert forall|y: A| #[trigger] s.push(x).contains(y) <==> (s.contains(y) || y == x) by {
        if y == x {
            assert(s.push(x)[s.len() as int] == x);
        }
        if s.contains(y) {
            let j = choose|j: int| 0 <= j < s.len() && s[j] == y;
            assert(s.push(x)[j] == y);
        }
        if s.push(x).contains(y) {
            let t = s.push(x);
            let j = choose|j: int| 0 <= j < t.len() && t[j] == y;
            if j < s.len() {
                assert(s[j] == y);
            }
        }
    }
    assert forall|a: int, b: int| 0 <= a < b < s.push(x).len() implies s.push(x)[a] != s.push(x)[b] by {
        if b == s.len() {
            assert(s[a] == s.push(x)[a]);
        }
    }
}

/// In a sequence without duplicates, an element is not among those before it.
pub(crate) proof fn lemma_not_in_prefix<A>(s: Seq<A>, i: int)
    requires
        s.no_duplicates(),
        0 <= i < s.len(),
    ensures
        !s.take(i).contains(s[i]),
{
    if s.take(i).contains(s[i]) {
        let j = choose|j: int| 0 <= j < i && s.take(i)[j] == s[i];
        assert(s[j] == s[i]);
    }
}

/// A key whose executable comparison and copy agree with its view.
pub(crate) trait Key: View + Sized {
    fn same_key(&self, other: &Self) -> (r: bool)
        ensures
            r == (self@ == other@),
    ;

    fn copy_key(&self) -> (r: Self)
        ensures
            r@ == self@,
    ;
}

impl Key for String {
    fn same_key(&self, other: &Self) -> (r: bool) {
        *self == *other
    }

    fn copy_key(&self) -> (r: Self) {
        self.clone()
    }
}

impl Key for (String, u64) {
    fn same_key(&self, other: &Self) -> (r: bool) {
        self.1 == other.1 && self.0 == other.0
    }

    fn copy_key(&self) -> (r: Self) {
        (self.0.clone(), self.1)
    }
}

/// A finite map from key views to values, kept in insertion order.
#[derive(Clone)]
pub(crate) struct KeyMap<K: Key, T> {
    entries: Vec<(K, T)>,
    model: Ghost<Map<<K as View>::V, T>>,
}

impl<K: Key, T> View for KeyMap<K, T> {
    type V = Map<<K as View>::V, T>;

    closed spec fn view(&self) -> Map<<K as View>::V, T> {
        self.model@
    }
}

impl<K: Key, T> KeyMap<K, T> {
    /// The keys in the order in which the map holds them.
    pub closed spec fn keys(&self) -> Seq<<K as View>::V> {
        self.entries@.map_values(|e: (K, T)| e.0@)
    }

    /// The entries hold each key once, and they are exactly the map's view.
    pub closed spec fn wf(&self) -> bool {
        &&& self.keys().no_duplicates()
        &&& forall|i: int|
            0 <= i < self.keys().len() ==> self.model@.contains_key(#[trigger] self.keys()[i])
                && self.model@[self.keys()[i]] == self.entries@[i].1
        &&& forall|k: <K as View>::V| #[trigger]
            self.model@.contains_key(k) ==> self.keys().contains(k)
    }

    /// What a caller may rely on about the order of the keys.
    pub proof fn lemma_keys(&self)
        requires
            self.wf(),
        ensures
            self.keys().no_duplicates(),
            forall|k: <K as View>::V| #[trigger]
                self@.contains_key(k) <==> self.keys().contains(k),
            self@.dom() == self.keys().to_set(),
            self@.dom().finite(),
            self@.len() == self.keys().len(),
    {
        assert forall|k: <K as View>::V| #[trigger]
            self@.contains_key(k) <==> self.keys().contains(k) by {
            if self.keys().contains(k) {
                let i = choose|i: int| 0 <= i < self.keys().len() && self.keys()[i] == k;
                assert(self.model@.contains_key(self.keys()[i]));
            }
        }
        assert(self@.dom() =~= self.keys().to_set());
        self.keys().unique_seq_to_set();
    }

    pub fn new() -> (m: Self)
        ensures
            m.wf(),
            m@ == Map::<<K as View>::V, T>::empty(),
            m.keys() == Seq::<<K as View>::V>::empty(),
    {
        let m = KeyMap { entries: Vec::new(), model: Ghost(Map::empty()) };
        assert(m.keys() =~= Seq::<<K as View>::V>::empty());
        m
    }

    pub fn len(&self) -> (n: usize)
        requires
            self.wf(),
        ensures
            n == self@.len(),
            n == self.keys().len(),
    {
        proof {
            self.lemma_keys();
        }
        self.entries.len()
    }

    /// The position of `k` among the keys, if the map holds it.
    pub fn find(&self, k: &K) -> (r: Option<usize>)
        requires
            self.wf(),
        ensures
            r is Some <==> self@.contains_key(k@),
            r matches Some(i) ==> i < self.keys().len() && self.keys()[i as int] == k@,
    {
        let mut i: usize = 0;
        while i < self.entries.len()
            invariant
                self.wf(),
                i <= self.entries@.len(),
                forall|j: int| 0 <= j < i ==> self.keys()[j] != k@,
            decreases self.entries@.len() - i,
        {
            if self.entries[i].0.same_key(k) {
                assert(self.model@.contains_key(self.keys()[i as int]));
                return Some(i);
            }
            i += 1;
        }
        proof {
            if self@.contains_key(k@) {
                assert(self.keys().contains(k@));
            }
        }
        None
    }

    pub fn contains_key(&self, k: &K) -> (b: bool)
        requires
            self.wf(),
        ensures
            b == self@.contains_key(k@),
    {
        self.find(k).is_some()
    }

    pub fn get(&self, k: &K) -> (r: Option<&T>)
        requires
            self.wf(),
        ensures
            r is Some <==> self@.contains_key(k@),
            r matches Some(v) ==> *v == self@[k@],
    {
        match self.find(k) {
            Some(i) => Some(&self.entries[i].1),
            None => None,
        }
    }

    pub fn key_at(&self, i: usize) -> (r: &K)
        requires
            self.wf(),
            i < self.keys().len(),
        ensures
            r@ == self.keys()[i as int],
    {
        &self.entries[i].0
    }

    pub fn value_at(&self, i: usize) -> (r: &T)
        requires
            self.wf(),
            i < self.keys().len(),
        ensures
            *r == self@[self.keys()[i as int]],
    {
        &self.entries[i].1
    }

    /// Binds `k` to `v`; returns whether `k` was bound before.
    pub fn insert(&mut self, k: K, v: T) -> (had: bool)
        requires
            old(self).wf(),
        ensures
            final(self).wf(),
            final(self)@ == old(self)@.insert(k@, v),
            had == old(self)@.contains_key(k@),
            had ==> final(self).keys() == old(self).keys(),
            !had ==> final(self).keys() == old(self).keys().push(k@),
    {
        let ghost new_model = self.model@.insert(k@, v);
        let ghost kv = k@;
        match self.find(&k) {
            Some(i) => {
                self.entries.set(i, (k, v));
                self.model = Ghost(new_model);
                assert(self.keys() =~= old(self).keys());
                assert forall|kk: <K as View>::V| #[trigger]
                    self.model@.contains_key(kk) implies self.keys().contains(kk) by {
                    if kk != kv {
                        assert(old(self).model@.contains_key(kk));
                    }
                }
                true
            },
            None => {
                self.entries.push((k, v));
                self.model = Ghost(new_model);
                assert(self.keys() =~= old(self).keys().push(kv));
                assert forall|kk: <K as View>::V| #[trigger]
                    self.model@.contains_key(kk) implies self.keys().contains(kk) by {
                    if kk != kv {
                        assert(old(self).model@.contains_key(kk));
                        let j = choose|j: int|
                            0 <= j < old(self).keys().len() && old(self).keys()[j] == kk;
                        assert(self.keys()[j] == kk);
                    } else {
                        assert(self.keys()[self.keys().len() - 1] == kv);
                    }
                }
                assert forall|i: int|
                    0 <= i < self.keys().len() implies self.model@.contains_key(
                    #[trigger] self.keys()[i],
                ) && self.model@[self.keys()[i]] == self.entries@[i].1 by {
                    if i < old(self).keys().len() {
                        assert(old(self).model@.contains_key(old(self).keys()[i]));
                        assert(old(self).keys().contains(old(self).keys()[i]));
                    }
                }
                false
            },
        }
    }

    /// Unbinds `k`, handing back the value it had.
    pub fn remove(&mut self, k: &K) -> (r: Option<T>)
        requires
            old(self).wf(),
        ensures
            final(self).wf(),
            final(self)@ == old(self)@.remove(k@),
            r is Some <==> old(self)@.contains_key(k@),
            r matches Some(v) ==> v == old(self)@[k@],
    {
        match self.find(k) {
            Some(i) => {
                let ghost new_model = self.model@.remove(k@);
                let e = self.entries.remove(i);
                self.model = Ghost(new_model);
                let ghost ok = old(self).keys();
                assert(self.keys() =~= ok.remove(i as int));
                assert forall|a: int, b: int|
                    0 <= a < b < self.keys().len() implies self.keys()[a] != self.keys()[b] by {
                    let oa = if a < i { a } else { a + 1 };
                    let ob = if b < i { b } else { b + 1 };
                    assert(self.keys()[a] == ok[oa]);
                    assert(self.keys()[b] == ok[ob]);
                }
                assert forall|j: int|
                    0 <= j < self.keys().len() implies self.model@.contains_key(
                    #[trigger] self.keys()[j],
                ) && self.model@[self.keys()[j]] == self.entries@[j].1 by {
                    let oj = if j < i { j } else { j + 1 };
                    assert(self.keys()[j] == ok[oj]);
                    assert(old(self).model@.contains_key(ok[oj]));
                    assert(ok[oj] != ok[i as int]);
                }
                assert forall|kk: <K as View>::V| #[trigger]
                    self.model@.contains_key(kk) implies self.keys().contains(kk) by {
                    assert(old(self).model@.contains_key(kk));
                    let j = choose|j: int| 0 <= j < ok.len() && ok[j] == kk;
                    assert(j != i);
                    let nj = if j < i { j } else { j - 1 };
                    assert(self.keys()[nj] == kk);
                }
                Some(e.1)
            },
            None => {
                assert(self.model@ =~= old(self).model@.remove(k@));
                None
            },
        }
    }

    /// Puts `v` in place of the value at position `i`, handing back the value it had.
    pub fn replace_at(&mut self, i: usize, v: T) -> (prev: T)
        requires
            old(self).wf(),
            i < old(self).keys().len(),
        ensures
            final(self).wf(),
            final(self).keys() == old(self).keys(),
            final(self)@ == old(self)@.insert(old(self).keys()[i as int], v),
            prev == old(self)@[old(self).keys()[i as int]],
    {
        let ghost kv = self.keys()[i as int];
        let ghost new_model = self.model@.insert(kv, v);
        let mut v = v;
        std::mem::swap(&mut self.entries[i].1, &mut v);
        self.model = Ghost(new_model);
        assert(self.keys() =~= old(self).keys());
        assert forall|kk: <K as View>::V| #[trigger]
            self.model@.contains_key(kk) implies self.keys().contains(kk) by {
            if kk != kv {
                assert(old(self).model@.contains_key(kk));
            } else {
                assert(self.keys()[i as int] == kv);
            }
        }
        v
    }

    /// Copies of the keys, in the map's order.
    pub fn copy_keys(&self) -> (r: Vec<K>)
        requires
            self.wf(),
        ensures
            r@.map_values(|x: K| x@) == self.keys(),
    {
        let mut r: Vec<K> = Vec::new();
        let mut i: usize = 0;
        while i < self.entries.len()
            invariant
                i <= self.entries@.len(),
                r@.len() == i,
                forall|j: int| 0 <= j < i ==> (#[trigger] r@[j])@ == self.keys()[j],
            decreases self.entries@.len() - i,
        {
            let c = self.entries[i].0.copy_key();
            r.push(c);
            i += 1;
        }
        assert(r@.map_values(|x: K| x@) =~= self.keys());
        r
    }

    /// Hands out the keys and leaves the map empty.
    pub fn take_keys(&mut self) -> (r: Vec<K>)
        requires
            old(self).wf(),
        ensures
            final(self).wf(),
            final(self)@ == Map::<<K as View>::V, T>::empty(),
            r@.map_values(|x: K| x@) == old(self).keys(),
    {
        let r = self.copy_keys();
        *self = KeyMap::new();
        r
    }

}

} // verus!
