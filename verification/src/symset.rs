//! Sets of symbols that remember the order of insertion, kept in an
//! `indexmap::IndexSet`.

use crate::sym::{sym_of_key, Sym};
use indexmap::IndexSet;
use vstd::prelude::*;

verus! {

/// `indexmap::IndexSet`, of which the verifier sees nothing but the name.
#[verifier::external_type_specification]
#[verifier::external_body]
#[verifier::reject_recursive_types(T)]
#[verifier::reject_recursive_types(S)]
pub struct ExIndexSet<T, S>(IndexSet<T, S>);

/// The keys an `IndexSet` holds, in the order of their position.
pub uninterp spec fn index_set_items(s: IndexSet<(u32, u32)>) -> Seq<(u32, u32)>;

/// `IndexSet::new`: a set without elements.
#[verifier::external_body]
fn index_set_new() -> (s: IndexSet<(u32, u32)>)
    ensures
        index_set_items(s) == Seq::<(u32, u32)>::empty(),
{
    IndexSet::new()
}

/// `IndexSet::insert`: a key the set lacks goes to the end and `true` comes
/// back; with a key it holds, the set stays as it is and `false` comes back.
#[verifier::external_body]
fn index_set_insert(s: &mut IndexSet<(u32, u32)>, k: (u32, u32)) -> (fresh: bool)
    ensures
        fresh == !index_set_items(*old(s)).contains(k),
        index_set_items(*final(s)) == (if fresh {
            index_set_items(*old(s)).push(k)
        } else {
            index_set_items(*old(s))
        }),
{
    s.insert(k)
}

/// `IndexSet::contains`: whether the key is in the set.
#[verifier::external_body]
fn index_set_contains(s: &IndexSet<(u32, u32)>, k: (u32, u32)) -> (found: bool)
    ensures
        found == index_set_items(*s).contains(k),
{
    s.contains(&k)
}

/// `IndexSet::get_index_of`: a position at which the key stands, if it is in
/// the set.
#[verifier::external_body]
fn index_set_get_index_of(s: &IndexSet<(u32, u32)>, k: (u32, u32)) -> (at: Option<usize>)
    ensures
        match at {
            Some(i) => i < index_set_items(*s).len() && index_set_items(*s)[i as int] == k,
            None => !index_set_items(*s).contains(k),
        },
{
    s.get_index_of(&k)
}

/// `IndexSet::get_index`: the key at a position, for positions below the
/// length.
#[verifier::external_body]
fn index_set_get_index(s: &IndexSet<(u32, u32)>, i: usize) -> (at: Option<(u32, u32)>)
    ensures
        match at {
            Some(k) => i < index_set_items(*s).len() && index_set_items(*s)[i as int] == k,
            None => i >= index_set_items(*s).len(),
        },
{
    s.get_index(i).copied()
}

/// `IndexSet::len`: the number of keys.
#[verifier::external_body]
fn index_set_len(s: &IndexSet<(u32, u32)>) -> (n: usize)
    ensures
        n == index_set_items(*s).len(),
{
    s.len()
}

/// A set of symbols in insertion order.
pub struct SymSet {
    inner: IndexSet<(u32, u32)>,
}

impl View for SymSet {
    type V = Seq<Sym>;

    closed spec fn view(&self) -> Seq<Sym> {
        Seq::new(index_set_items(self.inner).len(), |i: int| sym_of_key(index_set_items(self.inner)[i]))
    }
}

impl SymSet {
    /// No symbol stands at two positions.
    pub open spec fn wf(&self) -> bool {
        self@.no_duplicates()
    }

    proof fn lemma_contains(&self, s: Sym)
        ensures
            self@.contains(s) <==> index_set_items(self.inner).contains(s.key()),
    {
        let items = index_set_items(self.inner);
        if self@.contains(s) {
            let i = choose|i: int| 0 <= i < self@.len() && self@[i] == s;
            assert(items[i] == s.key());
        }
        if items.contains(s.key()) {
            let i = choose|i: int| 0 <= i < items.len() && items[i] == s.key();
            assert(self@[i] == s);
        }
    }

    pub fn new() -> (s: SymSet)
        ensures
            s@ == Seq::<Sym>::empty(),
            s.wf(),
    {
        let s = SymSet { inner: index_set_new() };
        assert(s@ =~= Seq::<Sym>::empty());
        s
    }

    /// Adds a symbol at the end unless the set holds it already; says
    /// whether it was added.
    pub fn insert(&mut self, s: Sym) -> (fresh: bool)
        requires
            old(self).wf(),
        ensures
            final(self).wf(),
            fresh == !old(self)@.contains(s),
            final(self)@ == (if fresh {
                old(self)@.push(s)
            } else {
                old(self)@
            }),
    {
        proof {
            self.lemma_contains(s);
        }
        let ghost before = self@;
        let fresh = index_set_insert(&mut self.inner, s.as_key());
        proof {
            if fresh {
                assert(self@ =~= before.push(s));
                assert forall|i: int, j: int|
                    0 <= i < self@.len() && 0 <= j < self@.len() && i != j implies self@[i]
                    != self@[j] by {
                    if i < before.len() && j < before.len() {
                        assert(before[i] != before[j]);
                    } else if i < before.len() {
                        assert(before.contains(before[i]));
                    } else {
                        assert(before.contains(before[j]));
                    }
                }
            } else {
                assert(self@ =~= before);
            }
        }
        fresh
    }

    pub fn contains(&self, s: Sym) -> (found: bool)
        ensures
            found == self@.contains(s),
    {
        proof {
            self.lemma_contains(s);
        }
        index_set_contains(&self.inner, s.as_key())
    }

    /// The position of a symbol, if the set holds it.
    pub fn get_index_of(&self, s: Sym) -> (at: Option<usize>)
        ensures
            match at {
                Some(i) => i < self@.len() && self@[i as int] == s,
                None => !self@.contains(s),
            },
    {
        proof {
            self.lemma_contains(s);
        }
        index_set_get_index_of(&self.inner, s.as_key())
    }

    pub fn len(&self) -> (n: usize)
        ensures
            n == self@.len(),
    {
        index_set_len(&self.inner)
    }

    /// The symbol at position `i`.
    pub fn get_index(&self, i: usize) -> (at: Option<Sym>)
        ensures
            match at {
                Some(s) => i < self@.len() && self@[i as int] == s,
                None => i >= self@.len(),
            },
    {
        match index_set_get_index(&self.inner, i) {
            Some(k) => Some(Sym::from_key(k)),
            None => None,
        }
    }

    /// The symbols as a vector, in order.
    pub fn to_vec(&self) -> (v: Vec<Sym>)
        ensures
            v@ == self@,
    {
        let n: usize = self.len();
        let mut v: Vec<Sym> = Vec::new();
        let mut i: usize = 0;
        while i < n
            invariant
                n == self@.len(),
                i <= n,
                v@ == self@.take(i as int),
            decreases n - i,
        {
            match self.get_index(i) {
                Some(s) => {
                    v.push(s);
                },
                None => {},
            }
            i += 1;
            assert(self@.take(i as int) =~= self@.take(i - 1).push(self@[i - 1]));
        }
        assert(self@.take(n as int) =~= self@);
        v
    }
}

} // verus!
