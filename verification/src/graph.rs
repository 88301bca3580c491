//! The working graph: every version of every node, with the edges between
//! them in both directions and the pointer from each version to the next.

use crate::error::RxError;
use crate::node::{
    children, lemma_children_take_le, names_view, relink_fields, Field, FieldView, Node, NodeView,
    WorkAreaNode, WorkAreaNodeView,
};
use crate::store::NodeStore;
use crate::sym::{Sym, TyCounter};
use vstd::prelude::*;

verus! {

/// The records of a working graph, by symbol.
pub type Graph = Map<Sym, WorkAreaNodeView>;

/// What holds of the record kept under `k`: it is the record of `k`, `k`
/// was minted, the newer version is a later symbol of the same type, and
/// every symbol the record names has a record of its own.
pub open spec fn record_ok(m: Graph, counters: Seq<u32>, k: Sym) -> bool {
    let r = m[k];
    &&& r.node.sym == k
    &&& (k.ty as int) < counters.len()
    &&& k.serial < counters[k.ty as int]
    &&& (r.next matches Some(n) ==> m.contains_key(n) && n.ty == k.ty && n.serial > k.serial)
    &&& (r.prev matches Some(p) ==> m.contains_key(p))
    &&& forall|i: int| 0 <= i < r.preds.len() ==> m.contains_key(#[trigger] r.preds[i])
    &&& forall|i: int| 0 <= i < r.succs().len() ==> m.contains_key(#[trigger] r.succs()[i])
}

/// Whether the reverse edges show every current parent: each current node
/// is listed among the reverse edges of each node that it names as a
/// child.
pub open spec fn preds_complete(m: Graph) -> bool {
    forall|p: Sym, c: Sym|
        is_latest(m, p) && #[trigger] m[p].succs().contains(c) ==> m[c].preds.contains(p)
}

/// The invariant of a working graph: every record is in order, and the
/// reverse edges show every current parent.
pub open spec fn graph_wf(m: Graph, counters: Seq<u32>) -> bool {
    &&& m.dom().finite()
    &&& forall|k: Sym| #[trigger] m.contains_key(k) ==> record_ok(m, counters, k)
    &&& preds_complete(m)
}

/// The current version of the logical node that `s` is a version of: the
/// end of the chain of `next` pointers that starts at `s`.
pub open spec fn latest(m: Graph, s: Sym) -> Sym
    decreases u32::MAX - s.serial,
{
    if m.contains_key(s) && m[s].next is Some && m[s].next->0.serial > s.serial {
        latest(m, m[s].next->0)
    } else {
        s
    }
}

/// Whether `s` has a record and no newer version.
pub open spec fn is_latest(m: Graph, s: Sym) -> bool {
    m.contains_key(s) && m[s].next is None
}

/// The current version of a recorded node is recorded, of the same type,
/// not older, and has no newer version.
pub proof fn lemma_latest_props(m: Graph, counters: Seq<u32>, s: Sym)
    requires
        graph_wf(m, counters),
        m.contains_key(s),
    ensures
        is_latest(m, latest(m, s)),
        latest(m, s).ty == s.ty,
        latest(m, s).serial >= s.serial,
        m[s].next is None <==> latest(m, s) == s,
    decreases u32::MAX - s.serial,
{
    if m[s].next is Some {
        lemma_latest_props(m, counters, m[s].next->0);
    }
}

/// The graph after `sym` was added to the reverse edges of each of `kids`,
/// once for each time it stands in the list.
pub open spec fn add_preds(m: Graph, kids: Seq<Sym>, sym: Sym) -> Graph
    decreases kids.len(),
{
    if kids.len() == 0 {
        m
    } else {
        let before = add_preds(m, kids.drop_last(), sym);
        let c = kids.last();
        before.insert(c, WorkAreaNodeView { preds: before[c].preds.push(sym), ..before[c] })
    }
}

/// How the children of a node are resolved when it is registered: each to
/// its current version, or each as it stands.
pub open spec fn resolver(m: Graph, auto_latest: bool) -> spec_fn(Sym) -> Sym {
    |c: Sym|
        if auto_latest {
            latest(m, c)
        } else {
            c
        }
}

/// The graph after a new node was registered: the node stands under its
/// symbol with its children resolved, and each of these lists it among its
/// reverse edges.
pub open spec fn registered(m: Graph, node: NodeView, auto_latest: bool) -> Graph {
    let resolved = node.relinked(resolver(m, auto_latest));
    add_preds(m, resolved.succs(), node.sym).insert(
        node.sym,
        WorkAreaNodeView { next: None, prev: None, preds: Seq::empty(), node: resolved },
    )
}

/// Adding reverse edges to recorded nodes changes their reverse edges and
/// nothing else.
pub proof fn lemma_add_preds(m: Graph, kids: Seq<Sym>, sym: Sym)
    requires
        forall|i: int| 0 <= i < kids.len() ==> m.contains_key(#[trigger] kids[i]),
    ensures
        add_preds(m, kids, sym).dom() == m.dom(),
        forall|k: Sym| #[trigger]
            m.contains_key(k) ==> {
                let r = add_preds(m, kids, sym)[k];
                &&& r.next == m[k].next
                &&& r.prev == m[k].prev
                &&& r.node == m[k].node
                &&& m[k].preds.len() <= r.preds.len()
                &&& r.preds.take(m[k].preds.len() as int) == m[k].preds
                &&& forall|i: int| m[k].preds.len() <= i < r.preds.len() ==> r.preds[i] == sym
                &&& (!kids.contains(k) ==> r.preds == m[k].preds)
                &&& (kids.contains(k) ==> m[k].preds.len() < r.preds.len())
            },
    decreases kids.len(),
{
    let out = add_preds(m, kids, sym);
    if kids.len() == 0 {
        assert forall|k: Sym| #[trigger] m.contains_key(k) implies out[k].preds.take(
            m[k].preds.len() as int,
        ) == m[k].preds by {
            assert(m[k].preds.take(m[k].preds.len() as int) =~= m[k].preds);
        }
    } else {
        let init = kids.drop_last();
        let c = kids.last();
        assert(forall|i: int| 0 <= i < init.len() ==> init[i] == kids[i]);
        lemma_add_preds(m, init, sym);
        let before = add_preds(m, init, sym);
        assert(kids[kids.len() - 1] == c);
        assert(before.contains_key(c));
        assert(out.dom() =~= m.dom());
        assert forall|k: Sym| #[trigger] m.contains_key(k) implies ({
            let r = out[k];
            &&& r.next == m[k].next
            &&& r.prev == m[k].prev
            &&& r.node == m[k].node
            &&& m[k].preds.len() <= r.preds.len()
            &&& r.preds.take(m[k].preds.len() as int) == m[k].preds
            &&& forall|i: int| m[k].preds.len() <= i < r.preds.len() ==> r.preds[i] == sym
            &&& (!kids.contains(k) ==> r.preds == m[k].preds)
            &&& (kids.contains(k) ==> m[k].preds.len() < r.preds.len())
        }) by {
            if k == c {
                assert(out[k].preds == before[k].preds.push(sym));
                assert(out[k].preds.take(m[k].preds.len() as int) =~= before[k].preds.take(
                    m[k].preds.len() as int,
                ));
            } else {
                assert(out[k] == before[k]);
                if init.contains(k) {
                    let i = choose|i: int| 0 <= i < init.len() && init[i] == k;
                    assert(kids[i] == k);
                }
                if kids.contains(k) {
                    let i = choose|i: int| 0 <= i < kids.len() && kids[i] == k;
                    assert(init[i] == k);
                }
            }
        }
    }
}

/// The working graph of one engine, with the counters that mint its symbols
/// and the names its symbols are written with.
pub struct WorkingGraph {
    store: NodeStore,
    counters: Vec<TyCounter>,
    names: Vec<String>,
}

impl View for WorkingGraph {
    type V = Graph;

    closed spec fn view(&self) -> Graph {
        self.store@
    }
}

impl WorkingGraph {
    /// The value of each type's counter.
    pub closed spec fn counters(&self) -> Seq<u32> {
        Seq::new(self.counters@.len(), |i: int| self.counters@[i]@)
    }

    /// The lower-case name of each type.
    pub closed spec fn names(&self) -> Seq<Seq<char>> {
        names_view(self.names@)
    }

    pub open spec fn wf(&self) -> bool {
        &&& graph_wf(self@, self.counters())
        &&& self.names().len() == self.counters().len()
    }

    /// An empty graph for the schema types with the given lower-case names.
    pub fn new(names: Vec<String>) -> (g: WorkingGraph)
        ensures
            g.wf(),
            g@ == Map::<Sym, WorkAreaNodeView>::empty(),
            g.names() == names_view(names@),
            g.counters() == Seq::new(names@.len(), |i: int| 0u32),
    {
        let mut counters: Vec<TyCounter> = Vec::new();
        let mut i: usize = 0;
        while i < names.len()
            invariant
                i <= names.len(),
                counters@.len() == i,
                forall|j: int| 0 <= j < i ==> (#[trigger] counters@[j])@ == 0,
            decreases names.len() - i,
        {
            counters.push(TyCounter::new());
            i += 1;
        }
        let g = WorkingGraph { store: NodeStore::new(), counters, names };
        assert(g.counters() =~= Seq::new(names@.len(), |i: int| 0u32));
        g
    }

    /// The number of schema types.
    pub fn types(&self) -> (n: usize)
        requires
            self.wf(),
        ensures
            n == self.counters().len(),
            n == self.names().len(),
    {
        self.counters.len()
    }

    /// The lower-case names of the schema types.
    pub fn type_names(&self) -> (names: &Vec<String>)
        ensures
            names_view(names@) == self.names(),
    {
        &self.names
    }

    /// The value of the counter of type `ty`.
    pub fn counter(&self, ty: u32) -> (n: Option<u32>)
        ensures
            match n {
                Some(c) => (ty as int) < self.counters().len() && c == self.counters()[ty as int],
                None => (ty as int) >= self.counters().len(),
            },
    {
        if (ty as usize) < self.counters.len() {
            Some(self.counters[ty as usize].get_counter())
        } else {
            None
        }
    }

    pub fn contains(&self, s: Sym) -> (found: bool)
        ensures
            found == self@.contains_key(s),
    {
        self.store.contains(s)
    }

    /// A copy of the record kept for a symbol.
    pub fn get(&self, s: Sym) -> (r: Option<WorkAreaNode>)
        ensures
            match r {
                Some(w) => self@.contains_key(s) && w@ == self@[s],
                None => !self@.contains_key(s),
            },
    {
        self.store.get(s)
    }

    /// Files a record under a symbol, in place of the record it had.
    pub(crate) fn put(&mut self, s: Sym, w: WorkAreaNode)
        ensures
            final(self)@ == old(self)@.insert(s, w@),
            final(self).counters() == old(self).counters(),
            final(self).names() == old(self).names(),
    {
        self.store.insert(s, w);
    }

    /// Follows the `next` pointers from a recorded symbol to the current
    /// version of its node. A symbol without record is a bad reference.
    pub fn locate_latest(&self, s: Sym) -> (r: Result<Sym, RxError>)
        requires
            self.wf(),
        ensures
            match r {
                Ok(l) => self@.contains_key(s) && l == latest(self@, s),
                Err(e) => !self@.contains_key(s) && e == RxError::BadReference(s),
            },
    {
        if !self.store.contains(s) {
            return Err(RxError::BadReference(s));
        }
        Ok(self.latest(s))
    }

    /// Follows the `next` pointers from `s` as far as they lead.
    pub(crate) fn latest(&self, s: Sym) -> (l: Sym)
        requires
            self.wf(),
        ensures
            l == latest(self@, s),
    {
        let mut cur: Sym = s;
        loop
            invariant
                self.wf(),
                latest(self@, cur) == latest(self@, s),
            decreases u32::MAX - cur.serial,
        {
            match self.store.get(cur) {
                Some(w) => {
                    match w.next {
                        Some(n) => {
                            cur = n;
                        },
                        None => {
                            return cur;
                        },
                    }
                },
                None => {
                    return cur;
                },
            }
        }
    }

    /// Whether the counter of type `ty` exists and can mint `n` more
    /// symbols.
    pub open spec fn has_room(&self, ty: u32, n: nat) -> bool {
        (ty as int) < self.counters().len() && self.counters()[ty as int] + n <= u32::MAX
    }

    /// Mints the next symbol of type `ty`. No record has it yet.
    pub fn mint(&mut self, ty: u32) -> (s: Sym)
        requires
            old(self).wf(),
            old(self).has_room(ty, 1),
        ensures
            final(self).wf(),
            final(self)@ == old(self)@,
            final(self).names() == old(self).names(),
            s == (Sym { ty, serial: old(self).counters()[ty as int] }),
            final(self).counters() == old(self).counters().update(
                ty as int,
                (old(self).counters()[ty as int] + 1) as u32,
            ),
            !final(self)@.contains_key(s),
    {
        let ghost before = self.counters();
        let s = self.counters[ty as usize].next_sym(ty);
        proof {
            assert(self.counters() =~= before.update(ty as int, (before[ty as int] + 1) as u32));
            if self@.contains_key(s) {
                assert(record_ok(self@, before, s));
            }
            assert forall|k: Sym| #[trigger] self@.contains_key(k) implies record_ok(
                self@,
                self.counters(),
                k,
            ) by {
                assert(record_ok(self@, before, k));
            }
        }
        s
    }

    /// Registers a new node: resolves its children, when `auto_latest` says
    /// so, to their current versions, lists the node among the reverse
    /// edges of each child and files it under its symbol. A child without
    /// record is a bad reference, and then nothing changes.
    pub fn register(&mut self, node: &Node, auto_latest: bool) -> (r: Result<(), RxError>)
        requires
            old(self).wf(),
            (node@.sym.ty as int) < old(self).counters().len(),
            node@.sym.serial < old(self).counters()[node@.sym.ty as int],
            !old(self)@.contains_key(node@.sym),
        ensures
            final(self).wf(),
            final(self).counters() == old(self).counters(),
            final(self).names() == old(self).names(),
            match r {
                Ok(_) => {
                    &&& forall|i: int|
                        0 <= i < node@.succs().len() ==> old(self)@.contains_key(
                            #[trigger] node@.succs()[i],
                        )
                    &&& final(self)@ == registered(old(self)@, node@, auto_latest)
                },
                Err(e) => {
                    &&& final(self)@ == old(self)@
                    &&& exists|i: int|
                        0 <= i < node@.succs().len() && e == RxError::BadReference(
                            #[trigger] node@.succs()[i],
                        ) && !old(self)@.contains_key(node@.succs()[i])
                },
            },
    {
        let ghost m0 = self@;
        let ghost f = resolver(m0, auto_latest);
        let ghost want = node@.relinked(f);
        let sym: Sym = node.sym;
        let ghost given = node@;
        let mut copy = node.duplicate();
        // First pass: resolve every child and see that it has a record.
        let mut kids: Vec<Sym> = Vec::new();
        let n: usize = copy.fields.len();
        let mut i: usize = 0;
        while i < n
            invariant
                self.wf(),
                self@ == m0,
                m0 == old(self)@,
                self.counters() == old(self).counters(),
                self.names() == old(self).names(),
                f == resolver(m0, auto_latest),
                given == node@,
                n == copy.fields.len(),
                i <= n,
                copy@.sym == given.sym,
                copy@.variant == given.variant,
                copy@.fields.len() == given.fields.len(),
                forall|j: int| i <= j < n ==> copy@.fields[j] == given.fields[j],
                forall|j: int|
                    0 <= j < i ==> #[trigger] copy@.fields[j] == relink_fields(given.fields, f)[j],
                kids@ == children(copy@.fields.take(i as int)),
                forall|j: int| 0 <= j < kids@.len() ==> m0.contains_key(#[trigger] kids@[j]),
                forall|j: int|
                    0 <= j < children(given.fields.take(i as int)).len() ==> m0.contains_key(
                        #[trigger] children(given.fields.take(i as int))[j],
                    ),
            decreases n - i,
        {
            let ghost before_fields = copy@.fields;
            let ghost before_kids = kids@;
            proof {
                let next = given.fields.take(i as int + 1);
                assert(next.drop_last() =~= given.fields.take(i as int));
                assert(next.last() == given.fields[i as int]);
                lemma_children_take_le(given.fields, i as int + 1);
            }
            let child: Option<Sym> = match &copy.fields[i] {
                Field::Child(c) => Some(*c),
                Field::Prim(_) => None,
            };
            proof {
                assert(copy@.fields[i as int] == copy.fields@[i as int]@);
                assert(given.fields[i as int] == copy@.fields[i as int]);
                match child {
                    Some(c) => {
                        assert(given.fields[i as int] == FieldView::Child(c));
                    },
                    None => {
                        assert(given.fields[i as int] is Prim);
                    },
                }
            }
            match child {
                Some(c) => {
                    let r: Sym = if auto_latest {
                        self.latest(c)
                    } else {
                        c
                    };
                    assert(r == f(c));
                    if !self.store.contains(r) {
                        proof {
                            let next = given.fields.take(i as int + 1);
                            let at = children(next).len() - 1;
                            assert(children(next) == children(next.drop_last()).push(c));
                            assert(children(next)[at] == c);
                            assert(children(given.fields).take(children(next).len() as int)[at]
                                == c);
                            assert(given.succs()[at] == c);
                            if m0.contains_key(c) {
                                lemma_latest_props(m0, self.counters(), c);
                            }
                            assert(!m0.contains_key(given.succs()[at]));
                        }
                        return Err(RxError::BadReference(c));
                    }
                    proof {
                        if !m0.contains_key(c) {
                            assert(latest(m0, c) == c);
                        }
                    }
                    copy.fields.set(i, Field::Child(r));
                    kids.push(r);
                },
                None => {},
            }
            i += 1;
            proof {
                assert(forall|j: int|
                    0 <= j < n && j != i - 1 ==> #[trigger] copy@.fields[j] == before_fields[j]);
                assert forall|j: int| 0 <= j < i implies #[trigger] copy@.fields[j]
                    == relink_fields(given.fields, f)[j] by {
                    if j < i - 1 {
                        assert(before_fields[j] == relink_fields(given.fields, f)[j]);
                    }
                }
                let now = copy@.fields.take(i as int);
                assert(now.drop_last() =~= before_fields.take(i - 1));
                assert(now.last() == copy@.fields[i - 1]);
                let gnext = given.fields.take(i as int);
                assert forall|j: int| 0 <= j < children(gnext).len() implies m0.contains_key(
                    #[trigger] children(gnext)[j],
                ) by {
                    if j < children(given.fields.take(i - 1)).len() {
                        assert(children(gnext)[j] == children(given.fields.take(i - 1))[j]);
                    }
                }
            }
        }
        proof {
            assert(copy@.fields.take(n as int) =~= copy@.fields);
            assert(given.fields.take(n as int) =~= given.fields);
            assert(copy@.fields =~= relink_fields(given.fields, f));
            assert(copy@ == want);
        }
        // Second pass: list the copy among the reverse edges of each child.
        let mut j: usize = 0;
        while j < kids.len()
            invariant
                j <= kids@.len(),
                self.counters() == old(self).counters(),
                self.names() == old(self).names(),
                forall|t: int| 0 <= t < kids@.len() ==> m0.contains_key(#[trigger] kids@[t]),
                self@ == add_preds(m0, kids@.take(j as int), sym),
            decreases kids.len() - j,
        {
            let c: Sym = kids[j];
            proof {
                assert(forall|t: int| 0 <= t < j ==> kids@.take(j as int)[t] == kids@[t]);
                lemma_add_preds(m0, kids@.take(j as int), sym);
                assert(m0.contains_key(kids@[j as int]));
                assert(self@.dom().contains(c));
            }
            match self.store.get(c) {
                Some(w) => {
                    let mut w = w;
                    w.preds.push(sym);
                    self.store.insert(c, w);
                },
                None => {},
            }
            j += 1;
            proof {
                let now = kids@.take(j as int);
                assert(now.drop_last() =~= kids@.take(j - 1));
                assert(now.last() == c);
            }
        }
        proof {
            assert(kids@.take(kids@.len() as int) =~= kids@);
            lemma_add_preds(m0, kids@, sym);
        }
        let ghost m1 = self@;
        self.store.insert(sym, WorkAreaNode::new(copy));
        proof {
            assert(self@ == registered(m0, given, auto_latest));
            lemma_registered_wf(m0, self.counters(), given, auto_latest);
        }
        Ok(())
    }
}

/// Registering a minted, unrecorded node whose resolved children all have
/// records keeps the graph's invariant.
pub proof fn lemma_registered_wf(m: Graph, counters: Seq<u32>, node: NodeView, auto_latest: bool)
    requires
        graph_wf(m, counters),
        (node.sym.ty as int) < counters.len(),
        node.sym.serial < counters[node.sym.ty as int],
        !m.contains_key(node.sym),
        forall|i: int|
            0 <= i < node.relinked(resolver(m, auto_latest)).succs().len() ==> m.contains_key(
                #[trigger] node.relinked(resolver(m, auto_latest)).succs()[i],
            ),
    ensures
        graph_wf(registered(m, node, auto_latest), counters),
{
    let resolved = node.relinked(resolver(m, auto_latest));
    let kids = resolved.succs();
    let sym = node.sym;
    let m1 = add_preds(m, kids, sym);
    let out = registered(m, node, auto_latest);
    lemma_add_preds(m, kids, sym);
    assert(out.dom() =~= m.dom().insert(sym));
    assert forall|k: Sym| #[trigger] out.contains_key(k) implies record_ok(out, counters, k) by {
        if k == sym {
            assert(out[k].succs() == kids);
        } else {
            assert(m.contains_key(k));
            assert(record_ok(m, counters, k));
            let r = out[k];
            assert(r == m1[k]);
            assert forall|i: int| 0 <= i < r.preds.len() implies out.contains_key(
                #[trigger] r.preds[i],
            ) by {
                if i < m[k].preds.len() {
                    assert(r.preds.take(m[k].preds.len() as int)[i] == m[k].preds[i]);
                    assert(m.contains_key(m[k].preds[i]));
                }
            }
            assert forall|i: int| 0 <= i < r.succs().len() implies out.contains_key(
                #[trigger] r.succs()[i],
            ) by {
                assert(m.contains_key(m[k].succs()[i]));
            }
        }
    }
    assert forall|p: Sym, c: Sym|
        is_latest(out, p) && #[trigger] out[p].succs().contains(c) implies out[c].preds.contains(
        p,
    ) by {
        if c == sym {
            // no record names a symbol that had no record
            if p == sym {
                let j = choose|j: int| 0 <= j < kids.len() && kids[j] == sym;
                assert(m.contains_key(kids[j]));
            } else {
                assert(m.contains_key(p));
                assert(record_ok(m, counters, p));
                let j = choose|j: int| 0 <= j < m[p].succs().len() && m[p].succs()[j] == sym;
                assert(m.contains_key(m[p].succs()[j]));
            }
        } else {
            if p == sym {
                let j = choose|j: int| 0 <= j < kids.len() && kids[j] == c;
                assert(m.contains_key(kids[j]));
            } else {
                assert(m.contains_key(p));
                assert(record_ok(m, counters, p));
                let j = choose|j: int| 0 <= j < m[p].succs().len() && m[p].succs()[j] == c;
                assert(m.contains_key(m[p].succs()[j]));
            }
            assert(m.contains_key(c));
            let after = out[c].preds;
            let before = m[c].preds;
            assert(after.take(before.len() as int) == before);
            if p == sym {
                assert(kids.contains(c));
                assert(after[before.len() as int] == sym);
            } else {
                assert(m.contains_key(p));
                assert(out[p].succs() == m[p].succs());
                assert(before.contains(p));
                let j = choose|j: int| 0 <= j < before.len() && before[j] == p;
                assert(after.take(before.len() as int)[j] == p);
                assert(after[j] == p);
            }
        }
    }
}

} // verus!
