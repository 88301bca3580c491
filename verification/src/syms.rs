//! Short lists of symbols, kept in a `SmallVec` so that the usual handful of
//! reverse edges of a node needs no allocation.

use crate::sym::Sym;
use smallvec::SmallVec;
use vstd::prelude::*;

verus! {

/// A list of symbols in insertion order.
///
/// The list lives in a `smallvec::SmallVec`, which Verus does not look into:
/// what it holds is named by [`syms_items`].
#[derive(Debug)]
#[verifier::external_body]
pub struct Syms {
    inner: SmallVec<[Sym; 4]>,
}

/// The symbols a `Syms` holds, first pushed first.
pub uninterp spec fn syms_items(s: Syms) -> Seq<Sym>;

impl View for Syms {
    type V = Seq<Sym>;

    open spec fn view(&self) -> Seq<Sym> {
        syms_items(*self)
    }
}

/// `SmallVec::new`: a vector without elements.
#[verifier::external_body]
fn small_new() -> (s: Syms)
    ensures
        syms_items(s) == Seq::<Sym>::empty(),
{
    Syms { inner: SmallVec::new() }
}

/// `SmallVec::push`: appends one element at the end and keeps the others.
#[verifier::external_body]
fn small_push(s: &mut Syms, x: Sym)
    ensures
        syms_items(*final(s)) == syms_items(*old(s)).push(x),
{
    s.inner.push(x)
}

/// `SmallVec::as_slice`: the elements as a slice, in order.
#[verifier::external_body]
fn small_as_slice(s: &Syms) -> (r: &[Sym])
    ensures
        r@ == syms_items(*s),
{
    s.inner.as_slice()
}

impl Syms {
    pub fn new() -> (s: Syms)
        ensures
            s@ == Seq::<Sym>::empty(),
    {
        small_new()
    }

    pub fn push(&mut self, x: Sym)
        ensures
            final(self)@ == old(self)@.push(x),
    {
        small_push(self, x)
    }

    pub fn as_slice(&self) -> (r: &[Sym])
        ensures
            r@ == self@,
    {
        small_as_slice(self)
    }

    pub fn len(&self) -> (n: usize)
        ensures
            n == self@.len(),
    {
        small_as_slice(self).len()
    }

    /// The symbol at position `i`.
    pub fn get(&self, i: usize) -> (x: Sym)
        requires
            i < self@.len(),
        ensures
            x == self@[i as int],
    {
        small_as_slice(self)[i]
    }

    /// Whether `x` is in the list.
    pub fn lists(&self, x: Sym) -> (found: bool)
        ensures
            found == self@.contains(x),
    {
        let sl = self.as_slice();
        let mut i: usize = 0;
        while i < sl.len()
            invariant
                i <= sl.len(),
                sl@ == self@,
                forall|j: int| 0 <= j < i ==> sl@[j] != x,
            decreases sl.len() - i,
        {
            if sl[i].ty == x.ty && sl[i].serial == x.serial {
                return true;
            }
            i += 1;
        }
        false
    }

    /// A list holding the symbols of `v` in the same order.
    pub fn from_slice(v: &[Sym]) -> (s: Syms)
        ensures
            s@ == v@,
    {
        let mut s = Syms::new();
        let mut i: usize = 0;
        while i < v.len()
            invariant
                i <= v.len(),
                s@ == v@.take(i as int),
            decreases v.len() - i,
        {
            s.push(v[i]);
            i += 1;
            assert(v@.take(i as int) =~= v@.take(i - 1).push(v@[i - 1]));
        }
        assert(v@.take(v.len() as int) =~= v@);
        s
    }

    /// An independent copy.
    pub fn duplicate(&self) -> (s: Syms)
        ensures
            s@ == self@,
    {
        Syms::from_slice(self.as_slice())
    }

    /// The symbols as a vector.
    pub fn to_vec(&self) -> (v: Vec<Sym>)
        ensures
            v@ == self@,
    {
        let sl = self.as_slice();
        let mut v: Vec<Sym> = Vec::new();
        let mut i: usize = 0;
        while i < sl.len()
            invariant
                i <= sl.len(),
                v@ == sl@.take(i as int),
            decreases sl.len() - i,
        {
            v.push(sl[i]);
            i += 1;
            assert(sl@.take(i as int) =~= sl@.take(i - 1).push(sl@[i - 1]));
        }
        assert(sl@.take(sl.len() as int) =~= sl@);
        v
    }
}

} // verus!
