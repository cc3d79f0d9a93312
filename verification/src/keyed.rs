//! Small verified collections keyed by values with a mathematical identity.
//!
//! `VecSet` is a finite set and `VecMap` a finite map, both stored in vectors
//! in insertion order, so that iterating them is deterministic.

use vstd::prelude::*;

verus! {

broadcast use vstd::seq_lib::group_seq_properties;

/// A value whose identity is its view: two keys are the same key exactly
/// when their views are equal.
pub trait Key: View + Sized {
    fn same_key(&self, other: &Self) -> (r: bool)
        ensures
            r == (self@ == other@),
    ;

    fn copy_key(&self) -> (r: Self)
        ensures
            r@ == self@,
    ;
}

/// The views of the values of a map.
pub open spec fn value_views<A, V: View>(m: Map<A, V>) -> Map<A, V::V> {
    m.map_values(|v: V| v@)
}

/// The views of a sequence of keys.
pub open spec fn key_views<K: Key>(s: Seq<K>) -> Seq<K::V> {
    s.map_values(|k: K| k@)
}

proof fn lemma_to_set_remove<A>(s: Seq<A>, i: int)
    requires
        s.no_duplicates(),
        0 <= i < s.len(),
    ensures
        s.remove(i).to_set() == s.to_set().remove(s[i]),
        s.remove(i).no_duplicates(),
{
    let r = s.remove(i);
    assert forall|x: A| r.to_set().contains(x) == s.to_set().remove(s[i]).contains(x) by {
        if r.contains(x) {
            let j = choose|j: int| 0 <= j < r.len() && r[j] == x;
            if j < i {
                assert(s[j] == x);
            } else {
                assert(s[j + 1] == x);
            }
        }
        if s.to_set().remove(s[i]).contains(x) {
            let j = choose|j: int| 0 <= j < s.len() && s[j] == x;
            assert(j != i);
            if j < i {
                assert(r[j] == x);
            } else {
                assert(r[j - 1] == x);
            }
        }
    }
    assert(r.to_set() =~= s.to_set().remove(s[i]));
}

/// A finite set of keys, kept in insertion order.
#[derive(Debug)]
pub struct VecSet<K: Key> {
    pub(crate) elems: Vec<K>,
}

impl<K: Key> View for VecSet<K> {
    type V = Set<K::V>;

    closed spec fn view(&self) -> Set<K::V> {
        self.seq().to_set()
    }
}

impl<K: Key> VecSet<K> {
    /// The views of the elements, in order.
    pub closed spec fn seq(&self) -> Seq<K::V> {
        key_views(self.elems@)
    }

    #[verifier::type_invariant]
    closed spec fn inv(&self) -> bool {
        self.seq().no_duplicates()
    }

    pub proof fn lemma_view(&self)
        ensures
            self@ == self.seq().to_set(),
            self@.finite(),
            forall|i: int| 0 <= i < self.seq().len() ==> #[trigger] self@.contains(self.seq()[i]),
            forall|v: K::V| #[trigger] self@.contains(v) ==> self.seq().contains(v),
    {
        broadcast use vstd::seq_lib::seq_to_set_is_finite;

        assert(forall|i: int| 0 <= i < self.seq().len() ==> self.seq().contains(#[trigger] self.seq()[i]));
    }

    pub fn new() -> (r: Self)
        ensures
            r@ == Set::<K::V>::empty(),
            r.seq() == Seq::<K::V>::empty(),
    {
        let r = VecSet { elems: Vec::new() };
        assert(r.seq() =~= Seq::<K::V>::empty());
        assert(r@ =~= Set::<K::V>::empty());
        r
    }

    pub fn len(&self) -> (r: usize)
        ensures
            r == self.seq().len(),
            r == self@.len(),
            self.seq().no_duplicates(),
    {
        proof {
            use_type_invariant(self);
            self.seq().unique_seq_to_set();
        }
        self.elems.len()
    }

    /// The elements, in order.
    pub fn to_vec(&self) -> (r: Vec<K>)
        ensures
            key_views(r@) == self.seq(),
    {
        let n = self.elems.len();
        let mut r: Vec<K> = Vec::new();
        let mut i: usize = 0;
        while i < n
            invariant
                i <= n,
                n == self.seq().len(),
                key_views(r@) == self.seq().take(i as int),
            decreases n - i,
        {
            let k = self.elems[i].copy_key();
            let ghost before = r@;
            r.push(k);
            proof {
                assert(key_views(r@) =~= key_views(before).push(k@));
                assert(self.seq().take(i + 1) =~= self.seq().take(i as int).push(self.seq()[i as int]));
            }
            i = i + 1;
        }
        proof {
            assert(self.seq().take(i as int) =~= self.seq());
        }
        r
    }

    pub fn is_empty(&self) -> (r: bool)
        ensures
            r == (self@ == Set::<K::V>::empty()),
            r == (self.seq().len() == 0),
    {
        proof {
            self.lemma_view();
            if self.seq().len() > 0 {
                assert(self@.contains(self.seq()[0]));
            }
            if self.seq().len() == 0 {
                assert(self@ =~= Set::<K::V>::empty());
            }
        }
        self.elems.len() == 0
    }

    pub fn get(&self, i: usize) -> (r: &K)
        requires
            i < self.seq().len(),
        ensures
            r@ == self.seq()[i as int],
            self@.contains(r@),
    {
        proof {
            self.lemma_view();
        }
        &self.elems[i]
    }

    fn position(&self, k: &K) -> (r: Option<usize>)
        ensures
            match r {
                Some(i) => i < self.seq().len() && self.seq()[i as int] == k@,
                None => !self.seq().contains(k@),
            },
    {
        let mut i: usize = 0;
        while i < self.elems.len()
            invariant
                i <= self.elems@.len(),
                forall|j: int| 0 <= j < i ==> self.seq()[j] != k@,
            decreases self.elems@.len() - i,
        {
            if self.elems[i].same_key(k) {
                return Some(i);
            }
            i = i + 1;
        }
        None
    }

    pub fn contains(&self, k: &K) -> (r: bool)
        ensures
            r == self@.contains(k@),
    {
        proof {
            self.lemma_view();
        }
        self.position(k).is_some()
    }

    pub fn insert(&mut self, k: K) -> (r: bool)
        ensures
            r == !old(self)@.contains(k@),
            final(self)@ == old(self)@.insert(k@),
            final(self).seq() == (if r { old(self).seq().push(k@) } else { old(self).seq() }),
    {
        proof {
            self.lemma_view();
        }
        if self.position(&k).is_some() {
            proof {
                assert(self@.insert(k@) =~= self@);
            }
            return false;
        }
        proof {
            use_type_invariant(&*self);
        }
        let ghost kv = k@;
        let ghost old_seq = self.seq();
        let mut elems: Vec<K> = Vec::new();
        std::mem::swap(&mut elems, &mut self.elems);
        elems.push(k);
        proof {
            assert(key_views(elems@) =~= old_seq.push(kv));
        }
        self.elems = elems;
        proof {
            assert(self.seq() =~= old_seq.push(kv));
            assert(self.seq().to_set() =~= old_seq.to_set().insert(kv));
        }
        true
    }

    pub fn remove(&mut self, k: &K) -> (r: bool)
        ensures
            r == old(self)@.contains(k@),
            final(self)@ == old(self)@.remove(k@),
    {
        proof {
            self.lemma_view();
            use_type_invariant(&*self);
        }
        match self.position(k) {
            None => {
                proof {
                    assert(self@.remove(k@) =~= self@);
                }
                false
            },
            Some(i) => {
                let ghost old_seq = self.seq();
                proof {
                    lemma_to_set_remove(old_seq, i as int);
                }
                let mut elems: Vec<K> = Vec::new();
                std::mem::swap(&mut elems, &mut self.elems);
                elems.remove(i);
                proof {
                    assert(key_views(elems@) =~= old_seq.remove(i as int));
                }
                self.elems = elems;
                proof {
                    assert(self.seq() =~= old_seq.remove(i as int));
                }
                true
            },
        }
    }

    pub fn duplicate(&self) -> (r: Self)
        ensures
            r@ == self@,
            r.seq() == self.seq(),
    {
        proof {
            use_type_invariant(self);
        }
        let mut elems: Vec<K> = Vec::new();
        let mut i: usize = 0;
        while i < self.elems.len()
            invariant
                i <= self.elems@.len(),
                key_views(elems@) == self.seq().take(i as int),
            decreases self.elems@.len() - i,
        {
            let k = self.elems[i].copy_key();
            let ghost prev = elems@;
            elems.push(k);
            proof {
                assert(elems@ =~= prev.push(k));
                assert(key_views(elems@) =~= key_views(prev).push(k@));
                assert(self.seq()[i as int] == self.elems@[i as int]@);
                assert(key_views(elems@) =~= self.seq().take(i + 1));
            }
            i = i + 1;
        }
        proof {
            assert(self.seq().take(i as int) =~= self.seq());
        }
        VecSet { elems }
    }

    /// Adds every key of `other` to this set.
    pub fn union_with(&mut self, other: &Self)
        ensures
            final(self)@ == old(self)@.union(other@),
    {
        proof {
            other.lemma_view();
        }
        let ghost start = self@;
        let mut i: usize = 0;
        while i < other.elems.len()
            invariant
                i <= other.elems@.len(),
                self@ == start.union(other.seq().take(i as int).to_set()),
            decreases other.elems@.len() - i,
        {
            let k = other.elems[i].copy_key();
            self.insert(k);
            proof {
                assert(other.seq().take(i + 1) =~= other.seq().take(i as int).push(other.seq()[i as int]));
                assert(other.seq().take(i + 1).to_set() =~= other.seq().take(i as int).to_set().insert(other.seq()[i as int]));
                assert(self@ =~= start.union(other.seq().take(i + 1).to_set()));
            }
            i = i + 1;
        }
        proof {
            assert(other.seq().take(i as int) =~= other.seq());
        }
    }

    /// The keys of this set that are not in `other`.
    pub fn difference(&self, other: &Self) -> (r: Self)
        ensures
            r@ == self@.difference(other@),
    {
        proof {
            self.lemma_view();
        }
        let mut r: Self = VecSet::new();
        let mut i: usize = 0;
        while i < self.elems.len()
            invariant
                i <= self.elems@.len(),
                r@ == self.seq().take(i as int).to_set().difference(other@),
            decreases self.elems@.len() - i,
        {
            if !other.contains(&self.elems[i]) {
                let k = self.elems[i].copy_key();
                r.insert(k);
            }
            proof {
                assert(self.seq().take(i + 1) =~= self.seq().take(i as int).push(self.seq()[i as int]));
                assert(self.seq().take(i + 1).to_set() =~= self.seq().take(i as int).to_set().insert(self.seq()[i as int]));
                assert(r@ =~= self.seq().take(i + 1).to_set().difference(other@));
            }
            i = i + 1;
        }
        proof {
            assert(self.seq().take(i as int) =~= self.seq());
        }
        r
    }

    /// Whether the two sets hold the same keys, whatever their order.
    pub fn same_set(&self, other: &Self) -> (r: bool)
        ensures
            r == (self@ == other@),
    {
        proof {
            self.lemma_view();
            other.lemma_view();
        }
        let mut i: usize = 0;
        while i < self.elems.len()
            invariant
                i <= self.elems@.len(),
                forall|j: int| 0 <= j < i ==> other@.contains(#[trigger] self.seq()[j]),
            decreases self.elems@.len() - i,
        {
            if !other.contains(&self.elems[i]) {
                proof {
                    assert(self@.contains(self.seq()[i as int]));
                }
                return false;
            }
            i = i + 1;
        }
        let mut j: usize = 0;
        while j < other.elems.len()
            invariant
                j <= other.elems@.len(),
                forall|l: int| 0 <= l < j ==> self@.contains(#[trigger] other.seq()[l]),
            decreases other.elems@.len() - j,
        {
            if !self.contains(&other.elems[j]) {
                proof {
                    assert(other@.contains(other.seq()[j as int]));
                }
                return false;
            }
            j = j + 1;
        }
        proof {
            assert forall|v: K::V| self@.contains(v) == other@.contains(v) by {
                if self@.contains(v) {
                    let a = choose|a: int| 0 <= a < self.seq().len() && self.seq()[a] == v;
                    assert(other@.contains(self.seq()[a]));
                }
                if other@.contains(v) {
                    let a = choose|a: int| 0 <= a < other.seq().len() && other.seq()[a] == v;
                    assert(self@.contains(other.seq()[a]));
                }
            }
            assert(self@ =~= other@);
        }
        true
    }
}


impl<K: Key> PartialEq for VecSet<K> {
    fn eq(&self, other: &Self) -> (r: bool) {
        self.same_set(other)
    }
}

impl<K: Key> Eq for VecSet<K> {
}

impl<K: Key> vstd::std_specs::cmp::PartialEqSpecImpl for VecSet<K> {
    open spec fn obeys_eq_spec() -> bool {
        true
    }

    open spec fn eq_spec(&self, other: &Self) -> bool {
        self@ == other@
    }
}

proof fn lemma_index_of_unique<A>(s: Seq<A>, i: int)
    requires
        s.no_duplicates(),
        0 <= i < s.len(),
    ensures
        s.index_of(s[i]) == i,
{
    assert(s.contains(s[i]));
}

/// A finite map from keys to values, kept in insertion order.
#[derive(Debug)]
pub struct VecMap<K: Key, V> {
    pub(crate) keys: Vec<K>,
    pub(crate) vals: Vec<V>,
}

impl<K: Key, V> View for VecMap<K, V> {
    type V = Map<K::V, V>;

    closed spec fn view(&self) -> Map<K::V, V> {
        Map::new(
            |k: K::V| self.key_seq().contains(k),
            |k: K::V| self.vals@[self.key_seq().index_of(k)],
        )
    }
}

impl<K: Key, V> VecMap<K, V> {
    /// The views of the keys, in order.
    pub closed spec fn key_seq(&self) -> Seq<K::V> {
        key_views(self.keys@)
    }

    #[verifier::type_invariant]
    closed spec fn inv(&self) -> bool {
        &&& self.key_seq().no_duplicates()
        &&& self.keys@.len() == self.vals@.len()
    }

    pub proof fn lemma_view(&self)
        ensures
            self@.dom() == self.key_seq().to_set(),
            self@.dom().finite(),
            forall|i: int| 0 <= i < self.key_seq().len() ==> #[trigger] self@.dom().contains(self.key_seq()[i]),
            forall|k: K::V| #[trigger] self@.dom().contains(k) ==> self.key_seq().contains(k),
    {
        broadcast use vstd::seq_lib::seq_to_set_is_finite;

        assert(self@.dom() =~= self.key_seq().to_set());
        assert(forall|i: int| 0 <= i < self.key_seq().len() ==> self.key_seq().contains(#[trigger] self.key_seq()[i]));
    }

    pub fn new() -> (r: Self)
        ensures
            r@ == Map::<K::V, V>::empty(),
            r.key_seq() == Seq::<K::V>::empty(),
    {
        let r = VecMap { keys: Vec::new(), vals: Vec::new() };
        assert(r.key_seq() =~= Seq::<K::V>::empty());
        assert(r@ =~= Map::<K::V, V>::empty());
        r
    }

    pub fn len(&self) -> (r: usize)
        ensures
            r == self.key_seq().len(),
            r == self@.dom().len(),
            self.key_seq().no_duplicates(),
    {
        proof {
            use_type_invariant(self);
            self.lemma_view();
            self.key_seq().unique_seq_to_set();
        }
        self.keys.len()
    }

    pub fn is_empty(&self) -> (r: bool)
        ensures
            r == (self@.dom() == Set::<K::V>::empty()),
            r == (self.key_seq().len() == 0),
    {
        proof {
            self.lemma_view();
            if self.key_seq().len() > 0 {
                assert(self@.dom().contains(self.key_seq()[0]));
            }
            if self.key_seq().len() == 0 {
                assert(self@.dom() =~= Set::<K::V>::empty());
            }
        }
        self.keys.len() == 0
    }

    pub fn key_at(&self, i: usize) -> (r: &K)
        requires
            i < self.key_seq().len(),
        ensures
            r@ == self.key_seq()[i as int],
            self@.dom().contains(r@),
    {
        proof {
            self.lemma_view();
        }
        &self.keys[i]
    }

    pub fn value_at(&self, i: usize) -> (r: &V)
        requires
            i < self.key_seq().len(),
        ensures
            self@.dom().contains(self.key_seq()[i as int]),
            *r == self@[self.key_seq()[i as int]],
    {
        proof {
            use_type_invariant(self);
            self.lemma_view();
            lemma_index_of_unique(self.key_seq(), i as int);
        }
        &self.vals[i]
    }

    fn position(&self, k: &K) -> (r: Option<usize>)
        ensures
            match r {
                Some(i) => i < self.key_seq().len() && self.key_seq()[i as int] == k@,
                None => !self.key_seq().contains(k@),
            },
    {
        let mut i: usize = 0;
        while i < self.keys.len()
            invariant
                i <= self.keys@.len(),
                forall|j: int| 0 <= j < i ==> self.key_seq()[j] != k@,
            decreases self.keys@.len() - i,
        {
            if self.keys[i].same_key(k) {
                return Some(i);
            }
            i = i + 1;
        }
        None
    }

    pub fn contains_key(&self, k: &K) -> (r: bool)
        ensures
            r == self@.dom().contains(k@),
    {
        self.position(k).is_some()
    }

    pub fn get(&self, k: &K) -> (r: Option<&V>)
        ensures
            match r {
                Some(v) => self@.dom().contains(k@) && *v == self@[k@],
                None => !self@.dom().contains(k@),
            },
    {
        proof {
            use_type_invariant(self);
        }
        match self.position(k) {
            Some(i) => {
                proof {
                    lemma_index_of_unique(self.key_seq(), i as int);
                }
                Some(&self.vals[i])
            },
            None => None,
        }
    }

    pub fn insert(&mut self, k: K, v: V) -> (r: Option<V>)
        ensures
            final(self)@ == old(self)@.insert(k@, v),
            match r {
                Some(prev) => old(self)@.dom().contains(k@) && prev == old(self)@[k@],
                None => !old(self)@.dom().contains(k@),
            },
    {
        proof {
            use_type_invariant(&*self);
        }
        let ghost old_keys = self.key_seq();
        let ghost old_vals = self.vals@;
        let ghost old_map = self@;
        let ghost kv = k@;
        let pos = self.position(&k);
        let mut tmp: VecMap<K, V> = VecMap::new();
        std::mem::swap(self, &mut tmp);
        proof {
            use_type_invariant(&tmp);
        }
        let VecMap { keys: mut keys, vals: mut vals } = tmp;
        if let Some(i) = pos {
            let ghost idx = i as int;
            proof {
                lemma_index_of_unique(old_keys, idx);
            }
            let prev = vals.remove(i);
            vals.insert(i, v);
            *self = VecMap { keys, vals };
            proof {
                assert(self.key_seq() == old_keys);
                assert(self.vals@ =~= old_vals.update(idx, v));
                assert forall|key: K::V| #[trigger] self@.dom().contains(key) implies self@[key] == old_map.insert(kv, v)[key] by {
                    let j = old_keys.index_of(key);
                    if key != kv {
                        assert(old_keys.contains(key));
                        assert(old_keys[j] == key);
                        assert(j != idx);
                    }
                }
                assert(self@ =~= old_map.insert(kv, v));
            }
            Some(prev)
        } else {
            keys.push(k);
            vals.push(v);
            proof {
                assert(key_views(keys@) =~= old_keys.push(kv));
            }
            *self = VecMap { keys, vals };
            proof {
                let n = old_keys.len() as int;
                assert(!old_keys.contains(kv));
                assert(self.key_seq() =~= old_keys.push(kv));
                lemma_index_of_unique(self.key_seq(), n);
                assert forall|key: K::V| #[trigger] self@.dom().contains(key) implies self@[key] == old_map.insert(kv, v)[key] by {
                    if key != kv {
                        assert(old_keys.contains(key));
                        let j = old_keys.index_of(key);
                        assert(old_keys[j] == key);
                        assert(self.key_seq()[j] == key);
                        lemma_index_of_unique(self.key_seq(), j);
                        lemma_index_of_unique(old_keys, j);
                    }
                }
                assert(self@ =~= old_map.insert(kv, v));
            }
            None
        }
    }

    pub fn remove(&mut self, k: &K) -> (r: Option<V>)
        ensures
            final(self)@ == old(self)@.remove(k@),
            match r {
                Some(prev) => old(self)@.dom().contains(k@) && prev == old(self)@[k@],
                None => !old(self)@.dom().contains(k@),
            },
    {
        proof {
            use_type_invariant(&*self);
        }
        match self.position(k) {
            None => {
                proof {
                    assert(self@.remove(k@) =~= self@);
                }
                None
            },
            Some(i) => {
                let ghost old_keys = self.key_seq();
                let ghost old_vals = self.vals@;
                let ghost old_map = self@;
                let ghost idx = i as int;
                proof {
                    lemma_to_set_remove(old_keys, idx);
                    lemma_index_of_unique(old_keys, idx);
                }
                let mut tmp: VecMap<K, V> = VecMap::new();
                std::mem::swap(self, &mut tmp);
                let VecMap { keys: mut keys, vals: mut vals } = tmp;
                keys.remove(i);
                let prev = vals.remove(i);
                proof {
                    assert(key_views(keys@) =~= old_keys.remove(idx));
                }
                *self = VecMap { keys, vals };
                proof {
                    let nk = self.key_seq();
                    assert(nk =~= old_keys.remove(idx));
                    assert forall|key: K::V| #[trigger] old_map.remove(k@).dom().contains(key) implies self@.dom().contains(key) && self@[key] == old_map[key] by {
                        assert(old_keys.contains(key));
                        let j = old_keys.index_of(key);
                        assert(old_keys[j] == key);
                        assert(j != idx);
                        lemma_index_of_unique(old_keys, j);
                        if j < idx {
                            assert(nk[j] == key);
                            lemma_index_of_unique(nk, j);
                        } else {
                            assert(nk[j - 1] == key);
                            lemma_index_of_unique(nk, j - 1);
                        }
                    }
                    assert forall|key: K::V| #[trigger] self@.dom().contains(key) implies old_map.remove(k@).dom().contains(key) by {
                        let j = choose|j: int| 0 <= j < nk.len() && nk[j] == key;
                        if j < idx {
                            assert(old_keys[j] == key);
                        } else {
                            assert(old_keys[j + 1] == key);
                        }
                        assert(old_keys.contains(key));
                    }
                    assert(self@ =~= old_map.remove(k@));
                }
                Some(prev)
            },
        }
    }
}


impl<A: Key, B: Key> Key for (A, B) {
    fn same_key(&self, other: &Self) -> (r: bool) {
        self.0.same_key(&other.0) && self.1.same_key(&other.1)
    }

    fn copy_key(&self) -> (r: Self) {
        (self.0.copy_key(), self.1.copy_key())
    }
}

/// Whether the set that the map gives `a` holds `k`.
pub open spec fn entry_contains<A, B>(m: Map<A, Set<B>>, a: A, k: B) -> bool {
    m.contains_key(a) && m[a].contains(k)
}

/// The map once `k` is added to the set of `a` (an absent set counts as empty).
pub open spec fn entry_with<A, B>(m: Map<A, Set<B>>, a: A, k: B) -> Map<A, Set<B>> {
    m.insert(a, if m.contains_key(a) { m[a] } else { Set::empty() }.insert(k))
}

/// The map once `k` leaves the set of `a`; a set that becomes empty leaves
/// the map.
pub open spec fn entry_without<A, B>(m: Map<A, Set<B>>, a: A, k: B) -> Map<A, Set<B>> {
    if m[a].remove(k).is_empty() {
        m.remove(a)
    } else {
        m.insert(a, m[a].remove(k))
    }
}

/// Adds `k` to the set of `a`; returns whether it was not there.
pub fn add_to_entry<A: Key, K: Key>(m: &mut VecMap<A, VecSet<K>>, a: A, k: K) -> (r: bool)
    ensures
        r == !entry_contains(value_views(old(m)@), a@, k@),
        value_views(final(m)@) == entry_with(value_views(old(m)@), a@, k@),
{
    let ghost w = value_views(m@);
    let ghost av = a@;
    let ghost kv = k@;
    let mut set = match m.remove(&a) {
        Some(set) => set,
        None => VecSet::new(),
    };
    let added = set.insert(k);
    m.insert(a, set);
    proof {
        assert(value_views(m@) =~= entry_with(w, av, kv));
    }
    added
}

/// Removes `k` from the set of `a`, dropping the set when it becomes empty;
/// returns whether `k` was there. The map is unchanged when it was not.
pub fn remove_from_entry<A: Key, K: Key>(m: &mut VecMap<A, VecSet<K>>, a: &A, k: &K) -> (r: bool)
    ensures
        r == entry_contains(value_views(old(m)@), a@, k@),
        r ==> value_views(final(m)@) == entry_without(value_views(old(m)@), a@, k@),
        !r ==> value_views(final(m)@) == value_views(old(m)@),
{
    let ghost w = value_views(m@);
    match m.remove(a) {
        None => {
            proof {
                assert(value_views(m@) =~= w);
            }
            false
        },
        Some(mut set) => {
            let ghost before = set@;
            let a2 = a.copy_key();
            if !set.remove(k) {
                proof {
                    assert(set@ =~= before);
                }
                m.insert(a2, set);
                proof {
                    assert(value_views(m@) =~= w);
                }
                return false;
            }
            if !set.is_empty() {
                m.insert(a2, set);
            }
            proof {
                assert(value_views(m@) =~= entry_without(w, a@, k@));
            }
            true
        },
    }
}

} // verus!
