//! Nodes that wait for a commit, by symbol and in the order in which they
//! were handed in, kept in an `indexmap::IndexMap`.

use crate::node::{Node, NodeView};
use crate::sym::{sym_of_key, Sym};
use indexmap::IndexMap;
use vstd::prelude::*;

verus! {

/// `indexmap::IndexMap`, of which the verifier sees nothing but the name.
#[verifier::external_type_specification]
#[verifier::external_body]
#[verifier::reject_recursive_types(K)]
#[verifier::reject_recursive_types(V)]
#[verifier::reject_recursive_types(S)]
pub struct ExIndexMap<K, V, S>(IndexMap<K, V, S>);

/// The pairs of key and node an `IndexMap` holds, in the order of their
/// position.
pub uninterp spec fn index_map_entries(m: IndexMap<(u32, u32), Node>) -> Seq<((u32, u32), Node)>;

/// Whether some pair of the list has the key.
pub open spec fn has_key(entries: Seq<((u32, u32), Node)>, k: (u32, u32)) -> bool {
    exists|i: int| 0 <= i < entries.len() && (#[trigger] entries[i]).0 == k
}

/// `IndexMap::new`: a map without pairs.
#[verifier::external_body]
fn index_map_new() -> (m: IndexMap<(u32, u32), Node>)
    ensures
        index_map_entries(m).len() == 0,
{
    IndexMap::new()
}

/// `IndexMap::insert`: a key the map holds keeps its place and gets the new
/// value; a key it lacks goes to the end with the value.
#[verifier::external_body]
fn index_map_insert(m: &mut IndexMap<(u32, u32), Node>, k: (u32, u32), v: Node)
    ensures
        has_key(index_map_entries(*old(m)), k) ==> index_map_entries(*final(m)).len()
            == index_map_entries(*old(m)).len(),
        has_key(index_map_entries(*old(m)), k) ==> (forall|j: int|
            0 <= j < index_map_entries(*old(m)).len() ==> #[trigger] index_map_entries(*final(m))[j]
                == (if index_map_entries(*old(m))[j].0 == k {
                (k, v)
            } else {
                index_map_entries(*old(m))[j]
            })),
        !has_key(index_map_entries(*old(m)), k) ==> index_map_entries(*final(m))
            == index_map_entries(*old(m)).push((k, v)),
{
    m.insert(k, v);
}

/// `IndexMap::len`: the number of pairs.
#[verifier::external_body]
fn index_map_len(m: &IndexMap<(u32, u32), Node>) -> (n: usize)
    ensures
        n == index_map_entries(*m).len(),
{
    m.len()
}

/// `IndexMap::get_index_of`: a position at which the key stands, if the map
/// holds it.
#[verifier::external_body]
fn index_map_get_index_of(m: &IndexMap<(u32, u32), Node>, k: (u32, u32)) -> (at: Option<usize>)
    ensures
        match at {
            Some(i) => i < index_map_entries(*m).len() && index_map_entries(*m)[i as int].0 == k,
            None => !has_key(index_map_entries(*m), k),
        },
{
    m.get_index_of(&k)
}

/// `IndexMap::get_index`: the key and the value at a position below the
/// length, by reference.
#[verifier::external_body]
fn index_map_get_index(m: &IndexMap<(u32, u32), Node>, i: usize) -> (at: Option<
    (&(u32, u32), &Node),
>)
    ensures
        match at {
            Some(e) => i < index_map_entries(*m).len() && *e.0 == index_map_entries(*m)[i as int].0
                && *e.1 == index_map_entries(*m)[i as int].1,
            None => i >= index_map_entries(*m).len(),
        },
{
    m.get_index(i)
}

/// `IndexMap::shift_remove_index`: the pair at a position below the length
/// leaves the map and comes back; those behind it move up by one.
#[verifier::external_body]
fn index_map_shift_remove_index(m: &mut IndexMap<(u32, u32), Node>, i: usize) -> (gone: Option<
    ((u32, u32), Node),
>)
    ensures
        match gone {
            Some(e) => i < index_map_entries(*old(m)).len() && e == index_map_entries(*old(m))[i as int]
                && index_map_entries(*final(m)) == index_map_entries(*old(m)).remove(i as int),
            None => i >= index_map_entries(*old(m)).len() && index_map_entries(*final(m))
                == index_map_entries(*old(m)),
        },
{
    m.shift_remove_index(i)
}

/// Nodes by symbol, in the order in which their symbols first came.
pub struct StagedNodes {
    inner: IndexMap<(u32, u32), Node>,
}

impl View for StagedNodes {
    type V = Seq<(Sym, NodeView)>;

    closed spec fn view(&self) -> Seq<(Sym, NodeView)> {
        Seq::new(
            index_map_entries(self.inner).len(),
            |i: int| (sym_of_key(index_map_entries(self.inner)[i].0), index_map_entries(self.inner)[i].1@),
        )
    }
}

/// The symbols of a list of staged nodes, in order.
pub open spec fn staged_keys(entries: Seq<(Sym, NodeView)>) -> Seq<Sym> {
    Seq::new(entries.len(), |i: int| entries[i].0)
}

/// The staged nodes as a map.
pub open spec fn staged_map(entries: Seq<(Sym, NodeView)>) -> Map<Sym, NodeView> {
    Map::new(
        |s: Sym| staged_keys(entries).contains(s),
        |s: Sym| entries[staged_keys(entries).index_of(s)].1,
    )
}

impl StagedNodes {
    /// No symbol stands at two positions.
    pub open spec fn wf(&self) -> bool {
        staged_keys(self@).no_duplicates()
    }

    proof fn lemma_has_key(&self, s: Sym)
        ensures
            has_key(index_map_entries(self.inner), s.key()) <==> staged_keys(self@).contains(s),
    {
        let entries = index_map_entries(self.inner);
        let keys = staged_keys(self@);
        if has_key(entries, s.key()) {
            let i = choose|i: int| 0 <= i < entries.len() && (#[trigger] entries[i]).0 == s.key();
            assert(keys[i] == s);
        }
        if keys.contains(s) {
            let i = choose|i: int| 0 <= i < keys.len() && keys[i] == s;
            assert(entries[i].0 == s.key());
        }
    }

    pub fn new() -> (s: StagedNodes)
        ensures
            s@ == Seq::<(Sym, NodeView)>::empty(),
            s.wf(),
    {
        let s = StagedNodes { inner: index_map_new() };
        assert(s@ =~= Seq::<(Sym, NodeView)>::empty());
        s
    }

    pub fn len(&self) -> (n: usize)
        ensures
            n == self@.len(),
    {
        index_map_len(&self.inner)
    }

    /// The position of a symbol, if a node is staged under it.
    pub fn get_index_of(&self, s: Sym) -> (at: Option<usize>)
        ensures
            match at {
                Some(i) => i < self@.len() && self@[i as int].0 == s,
                None => !staged_keys(self@).contains(s),
            },
    {
        proof {
            self.lemma_has_key(s);
        }
        index_map_get_index_of(&self.inner, s.as_key())
    }

    pub fn contains_key(&self, s: Sym) -> (found: bool)
        ensures
            found == staged_keys(self@).contains(s),
    {
        match self.get_index_of(s) {
            Some(i) => {
                assert(staged_keys(self@)[i as int] == s);
                true
            },
            None => false,
        }
    }

    /// The symbol at position `i` and a copy of the node staged under it.
    pub fn get_index(&self, i: usize) -> (at: Option<(Sym, Node)>)
        ensures
            match at {
                Some(e) => i < self@.len() && e.0 == self@[i as int].0 && e.1@ == self@[i as int].1,
                None => i >= self@.len(),
            },
    {
        match index_map_get_index(&self.inner, i) {
            Some(e) => Some((Sym::from_key(*e.0), e.1.duplicate())),
            None => None,
        }
    }

    /// A copy of the node staged under a symbol.
    pub fn get(&self, s: Sym) -> (at: Option<Node>)
        requires
            self.wf(),
        ensures
            match at {
                Some(n) => staged_map(self@).contains_key(s) && n@ == staged_map(self@)[s],
                None => !staged_map(self@).contains_key(s),
            },
    {
        match self.get_index_of(s) {
            Some(i) => {
                proof {
                    let keys = staged_keys(self@);
                    assert(keys[i as int] == s);
                    let j = keys.index_of(s);
                    assert(keys[j] == s);
                    assert(j == i);
                }
                match self.get_index(i) {
                    Some(e) => Some(e.1),
                    None => None,
                }
            },
            None => None,
        }
    }

    /// Stages a node under a symbol: in place of the node staged under it,
    /// or at the end.
    pub fn insert(&mut self, s: Sym, node: Node)
        requires
            old(self).wf(),
        ensures
            final(self).wf(),
            staged_keys(old(self)@).contains(s) ==> final(self)@ == old(self)@.update(
                staged_keys(old(self)@).index_of(s),
                (s, node@),
            ),
            !staged_keys(old(self)@).contains(s) ==> final(self)@ == old(self)@.push((s, node@)),
            staged_map(final(self)@) == staged_map(old(self)@).insert(s, node@),
    {
        let ghost before = self@;
        let ghost keys = staged_keys(before);
        let ghost nv = node@;
        let ghost old_entries = index_map_entries(self.inner);
        proof {
            self.lemma_has_key(s);
        }
        index_map_insert(&mut self.inner, s.as_key(), node);
        proof {
            let entries = index_map_entries(self.inner);
            if keys.contains(s) {
                let at = keys.index_of(s);
                assert(keys[at] == s);
                assert forall|j: int| 0 <= j < before.len() implies self@[j] == before.update(
                    at,
                    (s, nv),
                )[j] by {
                    assert(entries[j] == (if old_entries[j].0 == s.key() {
                        (s.key(), node)
                    } else {
                        old_entries[j]
                    }));
                    if old_entries[j].0 == s.key() {
                        assert(keys[j] == s);
                        assert(j == at);
                    } else {
                        assert(keys[j] != s);
                    }
                }
                assert(self@ =~= before.update(at, (s, nv)));
                assert(staged_keys(self@) =~= keys);
            } else {
                assert(self@ =~= before.push((s, nv)));
                assert(staged_keys(self@) =~= keys.push(s));
                assert forall|i: int, j: int|
                    0 <= i < keys.len() + 1 && 0 <= j < keys.len() + 1 && i != j implies keys.push(
                    s,
                )[i] != keys.push(s)[j] by {
                    if i < keys.len() && j < keys.len() {
                    } else if i < keys.len() {
                        assert(keys.contains(keys[i]));
                    } else {
                        assert(keys.contains(keys[j]));
                    }
                }
            }
            lemma_staged_map_insert(before, self@, s, nv);
        }
    }

    /// Takes the node at position `i` out of the list.
    pub fn remove_index(&mut self, i: usize) -> (gone: Option<(Sym, Node)>)
        requires
            old(self).wf(),
        ensures
            final(self).wf(),
            match gone {
                Some(e) => i < old(self)@.len() && e.0 == old(self)@[i as int].0 && e.1@ == old(
                    self,
                )@[i as int].1 && final(self)@ == old(self)@.remove(i as int),
                None => i >= old(self)@.len() && final(self)@ == old(self)@,
            },
    {
        let ghost before = self@;
        let gone = index_map_shift_remove_index(&mut self.inner, i);
        match gone {
            Some(e) => {
                proof {
                    assert(self@ =~= before.remove(i as int));
                    let keys = staged_keys(before);
                    assert(staged_keys(self@) =~= keys.remove(i as int));
                    assert forall|a: int, b: int|
                        0 <= a < keys.len() - 1 && 0 <= b < keys.len() - 1 && a != b implies keys.remove(
                        i as int,
                    )[a] != keys.remove(i as int)[b] by {
                        let a2 = if a < i { a } else { a + 1 };
                        let b2 = if b < i { b } else { b + 1 };
                        assert(keys[a2] != keys[b2]);
                    }
                }
                Some((Sym::from_key(e.0), e.1))
            },
            None => {
                assert(self@ =~= before);
                None
            },
        }
    }

    /// The staged symbols, in order.
    pub fn keys(&self) -> (v: Vec<Sym>)
        ensures
            v@ == staged_keys(self@),
    {
        let n: usize = self.len();
        let mut v: Vec<Sym> = Vec::new();
        let mut i: usize = 0;
        while i < n
            invariant
                n == self@.len(),
                i <= n,
                v@ == staged_keys(self@).take(i as int),
            decreases n - i,
        {
            match index_map_get_index(&self.inner, i) {
                Some(e) => {
                    v.push(Sym::from_key(*e.0));
                },
                None => {},
            }
            i += 1;
            assert(staged_keys(self@).take(i as int) =~= staged_keys(self@).take(i - 1).push(
                staged_keys(self@)[i - 1],
            ));
        }
        assert(staged_keys(self@).take(n as int) =~= staged_keys(self@));
        v
    }
}

/// Staging a node binds its symbol to it and leaves the other symbols as
/// they were.
pub proof fn lemma_staged_map_insert(
    before: Seq<(Sym, NodeView)>,
    after: Seq<(Sym, NodeView)>,
    s: Sym,
    node: NodeView,
)
    requires
        staged_keys(before).no_duplicates(),
        staged_keys(after).no_duplicates(),
        staged_keys(before).contains(s) ==> after == before.update(
            staged_keys(before).index_of(s),
            (s, node),
        ),
        !staged_keys(before).contains(s) ==> after == before.push((s, node)),
    ensures
        staged_map(after) == staged_map(before).insert(s, node),
{
    let kb = staged_keys(before);
    let ka = staged_keys(after);
    let want = staged_map(before).insert(s, node);
    assert forall|t: Sym| #[trigger] staged_map(after).contains_key(t) <==> want.contains_key(
        t,
    ) by {
        if ka.contains(t) {
            let i = choose|i: int| 0 <= i < ka.len() && ka[i] == t;
            if t != s {
                assert(kb[i] == t);
            }
        }
        if t == s {
            if kb.contains(s) {
                let at = kb.index_of(s);
                assert(ka[at] == s);
            } else {
                assert(ka[kb.len() as int] == s);
            }
        } else if kb.contains(t) {
            let i = choose|i: int| 0 <= i < kb.len() && kb[i] == t;
            assert(ka[i] == t);
        }
    }
    assert forall|t: Sym| #[trigger] staged_map(after).contains_key(t) implies staged_map(after)[t]
        == want[t] by {
        let i = ka.index_of(t);
        assert(ka[i] == t);
        if t == s {
            if kb.contains(s) {
                let at = kb.index_of(s);
                assert(ka[at] == s);
                assert(i == at);
            } else {
                assert(ka[kb.len() as int] == s);
                assert(i == kb.len());
            }
        } else {
            assert(kb[i] == t);
            let j = kb.index_of(t);
            assert(kb[j] == t);
            assert(i == j);
        }
    }
    assert(staged_map(after) =~= want);
}

/// Taking the node at a position out of the list unbinds its symbol and
/// leaves the other symbols as they were.
pub proof fn lemma_staged_map_remove(before: Seq<(Sym, NodeView)>, at: int)
    requires
        staged_keys(before).no_duplicates(),
        0 <= at < before.len(),
    ensures
        staged_map(before.remove(at)) == staged_map(before).remove(before[at].0),
{
    let after = before.remove(at);
    let kb = staged_keys(before);
    let ka = staged_keys(after);
    let gone = before[at].0;
    let want = staged_map(before).remove(gone);
    assert(ka =~= kb.remove(at));
    assert forall|t: Sym| #[trigger] staged_map(after).contains_key(t) <==> want.contains_key(
        t,
    ) by {
        if ka.contains(t) {
            let i = choose|i: int| 0 <= i < ka.len() && ka[i] == t;
            let i2 = if i < at {
                i
            } else {
                i + 1
            };
            assert(kb[i2] == t);
            assert(kb[at] == gone);
        }
        if kb.contains(t) && t != gone {
            let i = choose|i: int| 0 <= i < kb.len() && kb[i] == t;
            assert(kb[at] == gone);
            let i2 = if i < at {
                i
            } else {
                i - 1
            };
            assert(ka[i2] == t);
        }
    }
    assert forall|t: Sym| #[trigger] staged_map(after).contains_key(t) implies staged_map(after)[t]
        == want[t] by {
        let i = ka.index_of(t);
        assert(ka[i] == t);
        let i2 = if i < at {
            i
        } else {
            i + 1
        };
        assert(kb[i2] == t);
        let j = kb.index_of(t);
        assert(kb[j] == t);
        assert(j == i2);
    }
    assert(staged_map(after) =~= want);
}

} // verus!
