//! Interned strings: each distinct string is stored once and named by its
//! index, starting at 1, in the order strings were first interned.

use vstd::prelude::*;

verus! {

/// The index of an interned string (1 for the first).
#[derive(Debug, Clone, Copy, PartialEq, Eq, Structural, Hash, PartialOrd, Ord)]
pub struct StringIdx(pub(crate) usize);

impl View for StringIdx {
    type V = usize;

    closed spec fn view(&self) -> usize {
        self.0
    }
}

impl StringIdx {
    pub fn as_usize(self) -> (r: usize)
        ensures
            r == self@,
    {
        self.0
    }
}

/// The interned strings, in the order they were first interned; no string
/// occurs twice.
#[derive(Debug)]
pub struct StringPool {
    pub(crate) strings: Vec<String>,
}

impl View for StringPool {
    type V = Seq<Seq<char>>;

    closed spec fn view(&self) -> Seq<Seq<char>> {
        self.strings@.map_values(|s: String| s@)
    }
}

/// The string that an index names in a pool.
pub open spec fn pool_get(pool: Seq<Seq<char>>, idx: usize) -> Option<Seq<char>> {
    if 1 <= idx <= pool.len() {
        Some(pool[idx - 1])
    } else {
        None
    }
}

/// `a` is `b` with more strings at the end.
pub open spec fn pool_extends(a: Seq<Seq<char>>, b: Seq<Seq<char>>) -> bool {
    b.len() <= a.len() && a.take(b.len() as int) == b
}

/// An index keeps naming the same string when the pool grows.
pub proof fn lemma_pool_get_extends(a: Seq<Seq<char>>, b: Seq<Seq<char>>, idx: usize)
    requires
        pool_extends(a, b),
        pool_get(b, idx) is Some,
    ensures
        pool_get(a, idx) == pool_get(b, idx),
{
    assert(a.take(b.len() as int)[idx - 1] == a[idx - 1]);
}

/// Growing a pool twice grows it.
pub proof fn lemma_pool_extends_trans(c: Seq<Seq<char>>, b: Seq<Seq<char>>, a: Seq<Seq<char>>)
    requires
        pool_extends(c, b),
        pool_extends(b, a),
    ensures
        pool_extends(c, a),
{
    assert(c.take(a.len() as int) =~= b.take(a.len() as int)) by {
        assert forall|i: int| 0 <= i < a.len() implies c[i] == b[i] by {
            assert(c.take(b.len() as int)[i] == c[i]);
        }
    }
}

/// A pool whose strings all come from another pool is no larger.
pub proof fn lemma_sub_pool_len(a: Seq<Seq<char>>, b: Seq<Seq<char>>)
    requires
        a.no_duplicates(),
        forall|x: Seq<char>| a.contains(x) ==> b.contains(x),
    ensures
        a.len() <= b.len(),
{
    broadcast use vstd::seq_lib::seq_to_set_is_finite;

    a.unique_seq_to_set();
    b.lemma_cardinality_of_set();
    assert(a.to_set().subset_of(b.to_set()));
    vstd::set_lib::lemma_len_subset(a.to_set(), b.to_set());
}

impl StringPool {
    #[verifier::type_invariant]
    closed spec fn inv(&self) -> bool {
        self@.no_duplicates()
    }

    pub fn new() -> (r: Self)
        ensures
            r@ == Seq::<Seq<char>>::empty(),
    {
        let r = StringPool { strings: Vec::new() };
        assert(r@ =~= Seq::<Seq<char>>::empty());
        r
    }

    pub fn len(&self) -> (r: usize)
        ensures
            r == self@.len(),
            self@.no_duplicates(),
    {
        proof {
            use_type_invariant(self);
        }
        self.strings.len()
    }

    fn find(&self, value: &str) -> (r: Option<usize>)
        ensures
            match r {
                Some(i) => i < self@.len() && self@[i as int] == value@,
                None => !self@.contains(value@),
            },
    {
        let v = value.to_string();
        let mut i: usize = 0;
        while i < self.strings.len()
            invariant
                v@ == value@,
                i <= self@.len(),
                self@.len() == self.strings@.len(),
                forall|j: int| 0 <= j < i ==> self@[j] != value@,
            decreases self.strings@.len() - i,
        {
            if self.strings[i] == v {
                return Some(i);
            }
            i = i + 1;
        }
        None
    }

    /// The index of the string, interning it first if it is new.
    pub fn intern(&mut self, value: &str) -> (r: StringIdx)
        requires
            old(self)@.len() < usize::MAX,
        ensures
            old(self)@.contains(value@) ==> final(self)@ == old(self)@,
            !old(self)@.contains(value@) ==> final(self)@ == old(self)@.push(value@),
            pool_get(final(self)@, r@) == Some(value@),
            pool_extends(final(self)@, old(self)@),
    {
        proof {
            use_type_invariant(&*self);
        }
        proof {
            assert(self@.take(self@.len() as int) =~= self@);
            assert(self@.push(value@).take(self@.len() as int) =~= self@);
        }
        match self.find(value) {
            Some(i) => StringIdx(i + 1),
            None => {
                let ghost old_view = self@;
                let mut strings: Vec<String> = Vec::new();
                std::mem::swap(&mut strings, &mut self.strings);
                strings.push(value.to_string());
                proof {
                    assert(strings@.map_values(|s: String| s@) =~= old_view.push(value@));
                }
                self.strings = strings;
                proof {
                    assert(self@ =~= old_view.push(value@));
                }
                StringIdx(self.strings.len())
            },
        }
    }

    /// The string that the index names, if any.
    pub fn get(&self, idx: StringIdx) -> (r: Option<String>)
        ensures
            match r {
                Some(s) => pool_get(self@, idx@) == Some(s@),
                None => pool_get(self@, idx@) is None,
            },
    {
        if idx.0 >= 1 && idx.0 <= self.strings.len() {
            Some(self.strings[idx.0 - 1].clone())
        } else {
            None
        }
    }

    /// The interned strings in order; the string at position `i` has index
    /// `i + 1`.
    pub fn strings(&self) -> (r: &Vec<String>)
        ensures
            r@.map_values(|s: String| s@) == self@,
    {
        &self.strings
    }
}

/// Interning the same string again gives the same index and leaves the pool
/// unchanged; different strings get different indices.
pub proof fn lemma_intern_identifies(pool: Seq<Seq<char>>, a: usize, b: usize)
    requires
        pool.no_duplicates(),
        pool_get(pool, a) is Some,
        pool_get(pool, b) is Some,
    ensures
        (pool_get(pool, a) == pool_get(pool, b)) == (a == b),
{
}

} // verus!
