//! The staged protocol: new nodes and changes wait until a commit carries
//! those below a root through the working graph in one round.

use crate::backend::Backend;
use crate::emit::{batch_text, Batch};
use crate::error::RxError;
use crate::graph::{
    graph_wf, is_latest, latest, lemma_add_preds, lemma_latest_props, registered, resolver, Graph,
    WorkingGraph,
};
use crate::node::{
    fields_view, lemma_children_relink, names_view, node_text, Field, Node, NodeView,
    WorkAreaNodeView,
};
use crate::reach::{
    closed_at, dangling, edges, handled, in_search, is_walk, lemma_closed_complete,
    lemma_reached_is_latest, reachable,
};
use crate::sorts::{collect_string_type_defs, type_defs_text, FuncSort, TySort};
use crate::staged::{lemma_staged_map_remove, staged_keys, staged_map, StagedNodes};
use crate::sym::Sym;
use crate::symset::SymSet;
use crate::topo::{children_first, count_in, degree_in_subgraph, sorted, TopoDirection};
use crate::version::{
    advanced, lemma_minted_versionable, minted, room_for, versionable, versioned,
};
use vstd::pervasive::unreached;
use vstd::prelude::*;

verus! {

/// The record of one commit: its root and what was staged when it began.
#[derive(Debug)]
pub struct CommitCheckPoint {
    pub committed_node_root: Sym,
    pub staged_set_nodes: Vec<Sym>,
    pub staged_new_nodes: Vec<Sym>,
}

/// What a [`CommitCheckPoint`] holds.
pub struct CheckPointView {
    pub root: Sym,
    pub staged_set: Seq<Sym>,
    pub staged_new: Seq<Sym>,
}

impl View for CommitCheckPoint {
    type V = CheckPointView;

    open spec fn view(&self) -> CheckPointView {
        CheckPointView {
            root: self.committed_node_root,
            staged_set: self.staged_set_nodes@,
            staged_new: self.staged_new_nodes@,
        }
    }
}

/// The graph after the staged new nodes were registered, one after the
/// other, each with its children as they stand.
pub open spec fn registered_all(m: Graph, entries: Seq<(Sym, NodeView)>) -> Graph
    decreases entries.len(),
{
    if entries.len() == 0 {
        m
    } else {
        registered(registered_all(m, entries.drop_last()), entries.last().1, false)
    }
}

/// Whether the new node at position `i` can be registered once those before
/// it are: each of its children then has a record.
pub open spec fn registrable(m: Graph, entries: Seq<(Sym, NodeView)>, i: int) -> bool {
    forall|j: int|
        0 <= j < entries[i].1.succs().len() ==> registered_all(m, entries.take(i)).contains_key(
            #[trigger] entries[i].1.succs()[j],
        )
}

/// What holds of the nodes that wait for their registration: each is staged
/// under its own symbol, which was minted and has no record.
pub open spec fn pending_ok(m: Graph, counters: Seq<u32>, entries: Seq<(Sym, NodeView)>) -> bool {
    forall|i: int|
        0 <= i < entries.len() ==> {
            let k = (#[trigger] entries[i]).0;
            &&& entries[i].1.sym == k
            &&& (k.ty as int) < counters.len()
            &&& k.serial < counters[k.ty as int]
            &&& !m.contains_key(k)
        }
}

/// The engine of the staged protocol: the working graph, what is staged,
/// the history of the commits and the record of what the reasoning engine
/// was handed.
pub struct RxVT {
    egraph: Backend,
    graph: WorkingGraph,
    /// Changed nodes that wait for a commit, under the symbol they had when
    /// they were staged.
    staged_set_map: StagedNodes,
    /// New nodes that wait for their registration, in creation order.
    staged_new_map: StagedNodes,
    checkpoints: Vec<CommitCheckPoint>,
}

impl View for RxVT {
    type V = Graph;

    closed spec fn view(&self) -> Graph {
        self.graph@
    }
}

impl RxVT {
    /// The value of each type's counter.
    pub closed spec fn counters(&self) -> Seq<u32> {
        self.graph.counters()
    }

    /// The lower-case name of each type.
    pub closed spec fn names(&self) -> Seq<Seq<char>> {
        self.graph.names()
    }

    /// The changed nodes that wait for a commit.
    pub closed spec fn staged_set(&self) -> Seq<(Sym, NodeView)> {
        self.staged_set_map@
    }

    /// The new nodes that wait for their registration.
    pub closed spec fn staged_new(&self) -> Seq<(Sym, NodeView)> {
        self.staged_new_map@
    }

    /// The commits so far, oldest first.
    pub closed spec fn history(&self) -> Seq<CheckPointView> {
        Seq::new(self.checkpoints@.len(), |i: int| self.checkpoints@[i]@)
    }

    /// The texts that were reported as handed to the reasoning engine,
    /// oldest first, each with the answer that was reported: `true` where
    /// the engine accepted the text.
    pub closed spec fn sent(&self) -> Seq<(Seq<char>, bool)> {
        self.egraph.sent()
    }

    pub closed spec fn wf(&self) -> bool {
        &&& self.graph.wf()
        &&& self.staged_set_map.wf()
        &&& self.staged_new_map.wf()
        &&& pending_ok(self.graph@, self.graph.counters(), self.staged_new_map@)
    }

    /// What `wf` says.
    pub proof fn lemma_wf(&self)
        requires
            self.wf(),
        ensures
            graph_wf(self@, self.counters()),
            self.names().len() == self.counters().len(),
            staged_keys(self.staged_set()).no_duplicates(),
            staged_keys(self.staged_new()).no_duplicates(),
            pending_ok(self@, self.counters(), self.staged_new()),
    {
    }

    /// An engine for the schema with the given declarations and lower-case
    /// type names. The declarations were handed to the reasoning engine,
    /// which gave `answer`: there is an engine where it accepted them.
    pub fn new_with_type_defs(
        type_defs: String,
        names: Vec<String>,
        answer: Result<Vec<String>, egglog::Error>,
    ) -> (r: Result<RxVT, RxError>)
        ensures
            match r {
                Ok(rx) => {
                    &&& answer is Ok
                    &&& rx.wf()
                    &&& rx@ == Map::<Sym, WorkAreaNodeView>::empty()
                    &&& rx.names() == names_view(names@)
                    &&& rx.counters() == Seq::new(names@.len(), |i: int| 0u32)
                    &&& rx.staged_set().len() == 0
                    &&& rx.staged_new().len() == 0
                    &&& rx.history().len() == 0
                    &&& rx.sent() == seq![(type_defs@, true)]
                },
                Err(e) => answer is Err && e == RxError::BackendRejection,
            },
    {
        let mut egraph = Backend::new();
        match egraph.interpret(type_defs.as_str(), answer) {
            Ok(_) => Ok(
                RxVT {
                    egraph,
                    graph: WorkingGraph::new(names),
                    staged_set_map: StagedNodes::new(),
                    staged_new_map: StagedNodes::new(),
                    checkpoints: Vec::new(),
                },
            ),
            Err(e) => Err(e),
        }
    }

    /// An engine for the schema with the given sorts and functions, whose
    /// declarations are written as [`collect_string_type_defs`] writes them.
    /// These were handed to the reasoning engine, which gave `answer`.
    pub fn new(
        sorts: &Vec<TySort>,
        funcs: &Vec<FuncSort>,
        names: Vec<String>,
        answer: Result<Vec<String>, egglog::Error>,
    ) -> (r: Result<RxVT, RxError>)
        ensures
            match r {
                Ok(rx) => {
                    &&& answer is Ok
                    &&& rx.wf()
                    &&& rx@ == Map::<Sym, WorkAreaNodeView>::empty()
                    &&& rx.names() == names_view(names@)
                    &&& rx.counters() == Seq::new(names@.len(), |i: int| 0u32)
                    &&& rx.staged_set().len() == 0
                    &&& rx.staged_new().len() == 0
                    &&& rx.history().len() == 0
                    &&& rx.sent() == seq![(type_defs_text(sorts@, funcs@), true)]
                },
                Err(e) => answer is Err && e == RxError::BackendRejection,
            },
    {
        RxVT::new_with_type_defs(collect_string_type_defs(sorts, funcs), names, answer)
    }

    /// Takes note that the text `s` was handed to the reasoning engine and
    /// that the engine gave `answer`. Succeeds where the engine accepted the
    /// text. Neither the working graph nor what is staged changes.
    pub fn interpret(&mut self, s: String, answer: Result<Vec<String>, egglog::Error>) -> (r:
        Result<(), RxError>)
        ensures
            final(self).sent() == old(self).sent().push((s@, answer is Ok)),
            final(self)@ == old(self)@,
            final(self).counters() == old(self).counters(),
            final(self).names() == old(self).names(),
            final(self).staged_set() == old(self).staged_set(),
            final(self).staged_new() == old(self).staged_new(),
            final(self).history() == old(self).history(),
            final(self).wf() == old(self).wf(),
            answer is Ok ==> r == Ok::<(), RxError>(()),
            answer is Err ==> r == Err::<(), RxError>(RxError::BackendRejection),
    {
        self.egraph.interpret(s.as_str(), answer)
    }

    /// Takes note that a text of a commit was handed to the reasoning
    /// engine and that the engine gave `answer`. Succeeds where the engine
    /// accepted the text. Neither the working graph nor what is staged
    /// changes.
    pub fn receive(&mut self, received: String, answer: Result<Vec<String>, egglog::Error>) -> (r:
        Result<(), RxError>)
        ensures
            final(self).sent() == old(self).sent().push((received@, answer is Ok)),
            final(self)@ == old(self)@,
            final(self).counters() == old(self).counters(),
            final(self).names() == old(self).names(),
            final(self).staged_set() == old(self).staged_set(),
            final(self).staged_new() == old(self).staged_new(),
            final(self).history() == old(self).history(),
            final(self).wf() == old(self).wf(),
            answer is Ok ==> r == Ok::<(), RxError>(()),
            answer is Err ==> r == Err::<(), RxError>(RxError::BackendRejection),
    {
        self.interpret(received, answer)
    }

    /// The working graph.
    pub fn graph(&self) -> (g: &WorkingGraph)
        ensures
            g@ == self@,
            g.counters() == self.counters(),
            g.names() == self.names(),
            self.wf() ==> g.wf(),
    {
        &self.graph
    }

    /// The commits so far, oldest first.
    pub fn checkpoints(&self) -> (c: &Vec<CommitCheckPoint>)
        ensures
            c@.len() == self.history().len(),
            forall|i: int| 0 <= i < c@.len() ==> (#[trigger] c@[i])@ == self.history()[i],
    {
        &self.checkpoints
    }

    /// The symbols of the changed nodes that wait for a commit.
    pub fn staged_set_syms(&self) -> (v: Vec<Sym>)
        ensures
            v@ == staged_keys(self.staged_set()),
    {
        self.staged_set_map.keys()
    }

    /// The symbols of the new nodes that wait for their registration.
    pub fn staged_new_syms(&self) -> (v: Vec<Sym>)
        ensures
            v@ == staged_keys(self.staged_new()),
    {
        self.staged_new_map.keys()
    }

    /// Whether the schema has a type `ty` whose counter can mint one more
    /// symbol.
    pub open spec fn graph_has_room(&self, ty: u32) -> bool {
        (ty as int) < self.counters().len() && self.counters()[ty as int] < u32::MAX
    }

    /// Creates a node of schema type `ty`: mints its symbol and lets the
    /// node wait for the next commit. The working graph and the reasoning
    /// engine learn of it then.
    ///
    /// Refused as unsupported where the schema has no type `ty` or the
    /// type's counter is at the end of its range; then nothing changes.
    pub fn on_new(&mut self, ty: u32, variant: String, fields: Vec<Field>) -> (r: Result<
        Node,
        RxError,
    >)
        requires
            old(self).wf(),
        ensures
            final(self).wf(),
            final(self).sent() == old(self).sent(),
            final(self).names() == old(self).names(),
            final(self)@ == old(self)@,
            final(self).staged_set() == old(self).staged_set(),
            final(self).history() == old(self).history(),
            match r {
                Ok(node) => {
                    &&& old(self).graph_has_room(ty)
                    &&& node@ == (NodeView {
                        sym: Sym { ty, serial: old(self).counters()[ty as int] },
                        variant: variant@,
                        fields: fields_view(fields@),
                    })
                    &&& final(self).staged_new() == old(self).staged_new().push((node@.sym, node@))
                    &&& final(self).counters() == old(self).counters().update(
                        ty as int,
                        (old(self).counters()[ty as int] + 1) as u32,
                    )
                },
                Err(e) => {
                    &&& e == RxError::UnsupportedOperation
                    &&& !old(self).graph_has_room(ty)
                    &&& final(self).staged_new() == old(self).staged_new()
                    &&& final(self).counters() == old(self).counters()
                },
            },
    {
        match self.graph.counter(ty) {
            Some(c) => {
                if c == u32::MAX {
                    return Err(RxError::UnsupportedOperation);
                }
            },
            None => {
                return Err(RxError::UnsupportedOperation);
            },
        }
        let ghost before = self.staged_new_map@;
        let ghost c0 = self.graph.counters();
        let sym = self.graph.mint(ty);
        let node = Node::new(sym, variant, fields);
        proof {
            if staged_keys(before).contains(sym) {
                let i = choose|i: int| 0 <= i < before.len() && staged_keys(before)[i] == sym;
                assert(before[i].0 == sym);
            }
        }
        self.staged_new_map.insert(sym, node.duplicate());
        proof {
            let now = self.staged_new_map@;
            assert forall|i: int| 0 <= i < now.len() implies {
                let k = (#[trigger] now[i]).0;
                &&& now[i].1.sym == k
                &&& (k.ty as int) < self.graph.counters().len()
                &&& k.serial < self.graph.counters()[k.ty as int]
                &&& !self.graph@.contains_key(k)
            } by {
                if i < before.len() {
                    assert(now[i] == before[i]);
                    let k = before[i].0;
                    assert(k.serial < c0[k.ty as int]);
                }
            }
        }
        Ok(node)
    }

    /// Takes note of nothing: under this protocol a changed node is handed
    /// in with [`RxVT::on_stage`] and carried through at the next commit.
    pub fn on_set(&mut self, node: &mut Node)
        ensures
            *final(self) == *old(self),
            *final(node) == *old(node),
    {
    }

    /// Stages a changed node under its symbol, in place of what was staged
    /// under that symbol. Neither the working graph nor the reasoning engine
    /// is touched.
    pub fn on_stage(&mut self, node: &Node)
        requires
            old(self).wf(),
        ensures
            final(self).wf(),
            final(self).sent() == old(self).sent(),
            final(self)@ == old(self)@,
            final(self).counters() == old(self).counters(),
            final(self).names() == old(self).names(),
            final(self).staged_new() == old(self).staged_new(),
            final(self).history() == old(self).history(),
            staged_map(final(self).staged_set()) == staged_map(old(self).staged_set()).insert(
                node@.sym,
                node@,
            ),
            !staged_keys(old(self).staged_set()).contains(node@.sym) ==> final(self).staged_set()
                == old(self).staged_set().push((node@.sym, node@)),
            staged_keys(old(self).staged_set()).contains(node@.sym) ==> final(self).staged_set()
                == old(self).staged_set().update(
                staged_keys(old(self).staged_set()).index_of(node@.sym),
                (node@.sym, node@),
            ),
    {
        self.staged_set_map.insert(node.sym, node.duplicate());
    }

    /// The current version of the node that `old` is a version of.
    pub fn locate_latest(&self, old: Sym) -> (r: Result<Sym, RxError>)
        requires
            self.wf(),
        ensures
            match r {
                Ok(s) => self@.contains_key(old) && s == latest(self@, old),
                Err(e) => !self@.contains_key(old) && e == RxError::BadReference(old),
            },
    {
        if !self.graph.contains(old) {
            return Err(RxError::BadReference(old));
        }
        Ok(self.graph.latest(old))
    }

    /// The version after `old`, or `old` where it is the current one.
    pub fn locate_next(&self, old: Sym) -> (r: Result<Sym, RxError>)
        ensures
            match r {
                Ok(s) => self@.contains_key(old) && s == (match self@[old].next {
                    Some(n) => n,
                    None => old,
                }),
                Err(e) => !self@.contains_key(old) && e == RxError::BadReference(old),
            },
    {
        match self.graph.get(old) {
            Some(w) => match w.next {
                Some(n) => Ok(n),
                None => Ok(old),
            },
            None => Err(RxError::BadReference(old)),
        }
    }

    /// The version before `cur`, or `cur` where it is the first one.
    pub fn locate_prev(&self, cur: Sym) -> (r: Result<Sym, RxError>)
        ensures
            match r {
                Ok(s) => self@.contains_key(cur) && s == (match self@[cur].prev {
                    Some(p) => p,
                    None => cur,
                }),
                Err(e) => !self@.contains_key(cur) && e == RxError::BadReference(cur),
            },
    {
        match self.graph.get(cur) {
            Some(w) => match w.prev {
                Some(p) => Ok(p),
                None => Ok(cur),
            },
            None => Err(RxError::BadReference(cur)),
        }
    }

    /// Moves a symbol on to the current version of its node.
    pub fn set_latest(&self, node: &mut Sym) -> (r: Result<(), RxError>)
        requires
            self.wf(),
        ensures
            match r {
                Ok(_) => self@.contains_key(*old(node)) && *final(node) == latest(
                    self@,
                    *old(node),
                ),
                Err(e) => !self@.contains_key(*old(node)) && e == RxError::BadReference(*old(node))
                    && *final(node) == *old(node),
            },
    {
        match self.locate_latest(*node) {
            Ok(s) => {
                *node = s;
                Ok(())
            },
            Err(e) => Err(e),
        }
    }

    /// Moves a symbol on to the next version of its node.
    pub fn set_next(&self, node: &mut Sym) -> (r: Result<(), RxError>)
        ensures
            match r {
                Ok(_) => self@.contains_key(*old(node)) && *final(node) == (match self@[*old(
                    node,
                )].next {
                    Some(n) => n,
                    None => *old(node),
                }),
                Err(e) => !self@.contains_key(*old(node)) && e == RxError::BadReference(*old(node))
                    && *final(node) == *old(node),
            },
    {
        match self.locate_next(*node) {
            Ok(s) => {
                *node = s;
                Ok(())
            },
            Err(e) => Err(e),
        }
    }

    /// Moves a symbol back to the previous version of its node.
    pub fn set_prev(&self, node: &mut Sym) -> (r: Result<(), RxError>)
        ensures
            match r {
                Ok(_) => self@.contains_key(*old(node)) && *final(node) == (match self@[*old(
                    node,
                )].prev {
                    Some(p) => p,
                    None => *old(node),
                }),
                Err(e) => !self@.contains_key(*old(node)) && e == RxError::BadReference(*old(node))
                    && *final(node) == *old(node),
            },
    {
        match self.locate_prev(*node) {
            Ok(s) => {
                *node = s;
                Ok(())
            },
            Err(e) => Err(e),
        }
    }

    /// Adds to `index_set` the current ancestors of `cur_sym`, without
    /// `cur_sym` itself.
    pub fn collect_latest_ancestors(&self, cur_sym: Sym, index_set: &mut SymSet) -> (r: Result<
        (),
        RxError,
    >)
        requires
            self.wf(),
            old(index_set).wf(),
        ensures
            final(index_set).wf(),
            old(index_set)@.len() <= final(index_set)@.len(),
            final(index_set)@.take(old(index_set)@.len() as int) == old(index_set)@,
            match r {
                Ok(_) => {
                    &&& self@.contains_key(cur_sym)
                    &&& forall|x: Sym|
                        final(index_set)@.contains(x) <==> (old(index_set)@.contains(x)
                            || reachable(
                            self@,
                            Map::empty(),
                            false,
                            cur_sym,
                            old(index_set)@,
                            x,
                        ))
                },
                Err(e) => {
                    &&& e == RxError::BadReference(cur_sym)
                    &&& !self@.contains_key(cur_sym)
                    &&& final(index_set)@ == old(index_set)@
                },
            },
    {
        self.graph.collect_latest_ancestors(cur_sym, index_set)
    }

    /// Adds to `index_set` the current descendants of `cur_sym`, without
    /// `cur_sym` itself. The children of a node that is staged are those of
    /// the staged node.
    pub fn collect_descendants(&self, cur_sym: Sym, index_set: &mut SymSet) -> (r: Result<
        (),
        RxError,
    >)
        requires
            self.wf(),
            old(index_set).wf(),
        ensures
            final(index_set).wf(),
            old(index_set)@.len() <= final(index_set)@.len(),
            final(index_set)@.take(old(index_set)@.len() as int) == old(index_set)@,
            match r {
                Ok(_) => {
                    &&& self@.contains_key(cur_sym)
                    &&& forall|x: Sym|
                        final(index_set)@.contains(x) <==> (old(index_set)@.contains(x)
                            || reachable(
                            self@,
                            staged_map(self.staged_set()),
                            true,
                            cur_sym,
                            old(index_set)@,
                            x,
                        ))
                    &&& forall|y: Sym|
                        !dangling(
                            self@,
                            staged_map(self.staged_set()),
                            true,
                            cur_sym,
                            old(index_set)@,
                            y,
                        )
                },
                Err(e) => {
                    &&& e matches RxError::BadReference(y)
                    &&& if self@.contains_key(cur_sym) {
                        dangling(
                            self@,
                            staged_map(self.staged_set()),
                            true,
                            cur_sym,
                            old(index_set)@,
                            y,
                        )
                    } else {
                        y == cur_sym && final(index_set)@ == old(index_set)@
                    }
                },
            },
    {
        self.graph.collect_descendants(cur_sym, index_set, &self.staged_set_map)
    }

    /// Puts the members of `index_set` in the order the direction asks for.
    pub fn topo_sort(&self, index_set: &SymSet, direction: TopoDirection) -> (r: Result<
        Vec<Sym>,
        RxError,
    >)
        requires
            self.wf(),
            index_set.wf(),
        ensures
            match r {
                Ok(order) => {
                    &&& forall|i: int|
                        0 <= i < index_set@.len() ==> self@.contains_key(#[trigger] index_set@[i])
                    &&& sorted(self@, index_set@, order@, direction)
                },
                Err(RxError::BadReference(s)) => index_set@.contains(s) && !self@.contains_key(s),
                Err(RxError::CycleViolation) => {
                    &&& forall|i: int|
                        0 <= i < index_set@.len() ==> self@.contains_key(#[trigger] index_set@[i])
                    &&& forall|o: Seq<Sym>| !children_first(self@, index_set@, o)
                },
                Err(_) => false,
            },
    {
        self.graph.topo_sort(index_set, direction)
    }

    /// Counts the positions of `nodes` that hold a member of `index_set`.
    pub fn degree_in_subgraph(nodes: &Vec<Sym>, index_set: &SymSet) -> (d: usize)
        ensures
            d == count_in(nodes@, index_set@.to_set()),
    {
        degree_in_subgraph(nodes, index_set)
    }
}


/// Where the registration of the staged new nodes stops: the node at
/// position `i` names a child that has no record once the nodes before it
/// are registered, and `e` says which.
pub open spec fn stuck_at(m: Graph, entries: Seq<(Sym, NodeView)>, i: int, e: RxError) -> bool {
    &&& 0 <= i < entries.len()
    &&& forall|j: int| 0 <= j < i ==> registrable(m, entries, j)
    &&& e matches RxError::BadReference(x)
    &&& entries[i].1.succs().contains(x)
    &&& !registered_all(m, entries.take(i)).contains_key(x)
}

/// Registering a node whose children have records adds the node's symbol
/// to the recorded ones and no other.
pub proof fn lemma_registered_dom(m: Graph, node: NodeView)
    requires
        forall|i: int| 0 <= i < node.succs().len() ==> m.contains_key(#[trigger] node.succs()[i]),
    ensures
        registered(m, node, false).dom() == m.dom().insert(node.sym),
{
    let f = resolver(m, false);
    lemma_children_relink(node.fields, f);
    assert(node.relinked(f).succs() =~= node.succs());
    lemma_add_preds(m, node.relinked(f).succs(), node.sym);
    assert(registered(m, node, false).dom() =~= m.dom().insert(node.sym));
}

impl RxVT {
    /// Registers a node in the working graph; its children are resolved to
    /// their current versions where `auto_latest` says so.
    pub fn add_symnode(&mut self, symnode: &Node, auto_latest: bool) -> (r: Result<(), RxError>)
        requires
            old(self).wf(),
            (symnode@.sym.ty as int) < old(self).counters().len(),
            symnode@.sym.serial < old(self).counters()[symnode@.sym.ty as int],
            !old(self)@.contains_key(symnode@.sym),
            !staged_keys(old(self).staged_new()).contains(symnode@.sym),
        ensures
            final(self).wf(),
            final(self).sent() == old(self).sent(),
            final(self).counters() == old(self).counters(),
            final(self).names() == old(self).names(),
            final(self).staged_set() == old(self).staged_set(),
            final(self).staged_new() == old(self).staged_new(),
            final(self).history() == old(self).history(),
            match r {
                Ok(_) => {
                    &&& forall|i: int|
                        0 <= i < symnode@.succs().len() ==> old(self)@.contains_key(
                            #[trigger] symnode@.succs()[i],
                        )
                    &&& final(self)@ == registered(old(self)@, symnode@, auto_latest)
                },
                Err(e) => {
                    &&& final(self)@ == old(self)@
                    &&& exists|i: int|
                        0 <= i < symnode@.succs().len() && e == RxError::BadReference(
                            #[trigger] symnode@.succs()[i],
                        ) && !old(self)@.contains_key(symnode@.succs()[i])
                },
            },
    {
        let ghost m = self.graph@;
        let r = self.graph.register(symnode, auto_latest);
        proof {
            if r is Ok {
                let f = resolver(m, auto_latest);
                let resolved = symnode@.relinked(f);
                lemma_children_relink(symnode@.fields, f);
                assert forall|i: int| 0 <= i < resolved.succs().len() implies m.contains_key(
                    #[trigger] resolved.succs()[i],
                ) by {
                    let c = symnode@.succs()[i];
                    assert(m.contains_key(c));
                    lemma_latest_props(m, self.graph.counters(), c);
                }
                lemma_add_preds(m, resolved.succs(), symnode@.sym);
                assert(self.graph@.dom() =~= m.dom().insert(symnode@.sym));
                let entries = self.staged_new_map@;
                assert forall|i: int| 0 <= i < entries.len() implies !self.graph@.contains_key(
                    (#[trigger] entries[i]).0,
                ) by {
                    assert(staged_keys(entries)[i] == entries[i].0);
                }
            }
        }
        r
    }

    /// Registers the new nodes that wait, in creation order, each with its
    /// children as they stand. Stops at the first node that names a child
    /// without record: that node and those after it go on waiting.
    pub fn commit_new(&mut self) -> (r: Result<Vec<Sym>, RxError>)
        requires
            old(self).wf(),
        ensures
            final(self).wf(),
            final(self).sent() == old(self).sent(),
            final(self).counters() == old(self).counters(),
            final(self).names() == old(self).names(),
            final(self).staged_set() == old(self).staged_set(),
            final(self).history() == old(self).history(),
            match r {
                Ok(created) => {
                    &&& created@ == staged_keys(old(self).staged_new())
                    &&& forall|i: int|
                        0 <= i < created@.len() ==> final(self)@.contains_key(#[trigger] created@[i])
                    &&& final(self).staged_new().len() == 0
                    &&& final(self)@ == registered_all(old(self)@, old(self).staged_new())
                    &&& forall|i: int|
                        0 <= i < old(self).staged_new().len() ==> registrable(
                            old(self)@,
                            old(self).staged_new(),
                            i,
                        )
                },
                Err(e) => exists|i: int| #[trigger]
                    stuck_at(old(self)@, old(self).staged_new(), i, e)
                        && final(self)@ == registered_all(old(self)@, old(self).staged_new().take(i))
                        && final(self).staged_new() == old(self).staged_new().skip(i)
                        && forall|t: int|
                        0 <= t < i ==> final(self)@.contains_key(
                            #[trigger] staged_keys(old(self).staged_new())[t],
                        ),
            },
    {
        let ghost m0 = self.graph@;
        let ghost entries = self.staged_new_map@;
        let ghost keys = staged_keys(entries);
        let mut created: Vec<Sym> = Vec::new();
        let n: usize = self.staged_new_map.len();
        let mut i: usize = 0;
        proof {
            assert(entries.skip(0) =~= entries);
            assert(entries.take(0) =~= Seq::<(Sym, NodeView)>::empty());
            assert(keys.take(0) =~= Seq::<Sym>::empty());
        }
        while i < n
            invariant
                self.sent() == old(self).sent(),
                self.graph.wf(),
                self.staged_set_map.wf(),
                self.staged_new_map.wf(),
                self.graph.counters() == old(self).counters(),
                self.graph.names() == old(self).names(),
                self.staged_set_map@ == old(self).staged_set(),
                self.history() == old(self).history(),
                m0 == old(self)@,
                entries == old(self).staged_new(),
                keys == staged_keys(entries),
                keys.no_duplicates(),
                n == entries.len(),
                i <= n,
                pending_ok(m0, self.graph.counters(), entries),
                self.staged_new_map@ == entries.skip(i as int),
                self.graph@ == registered_all(m0, entries.take(i as int)),
                self.graph@.dom() == m0.dom().union(keys.take(i as int).to_set()),
                created@ == keys.take(i as int),
                forall|j: int| 0 <= j < i ==> registrable(m0, entries, j),
            decreases n - i,
        {
            let ghost g = self.graph@;
            let (k, node) = match self.staged_new_map.get_index(0) {
                Some(e) => e,
                None => unreached(),
            };
            proof {
                assert(entries.skip(i as int)[0] == entries[i as int]);
                assert(k == entries[i as int].0);
                assert(keys[i as int] == k);
                assert(!g.contains_key(k)) by {
                    if keys.take(i as int).contains(k) {
                        let j = choose|j: int| 0 <= j < i && keys.take(i as int)[j] == k;
                        assert(keys[j] == keys[i as int]);
                    }
                }
            }
            match self.graph.register(&node, false) {
                Err(e) => {
                    proof {
                        assert(stuck_at(m0, entries, i as int, e)) by {
                            let t = choose|t: int|
                                0 <= t < node@.succs().len() && e == RxError::BadReference(
                                    #[trigger] node@.succs()[t],
                                ) && !g.contains_key(node@.succs()[t]);
                            assert(entries[i as int].1.succs()[t] == node@.succs()[t]);
                        }
                        assert forall|t: int| 0 <= t < i implies g.contains_key(
                            #[trigger] keys[t],
                        ) by {
                            assert(keys.take(i as int)[t] == keys[t]);
                            assert(keys.take(i as int).to_set().contains(keys[t]));
                        }
                        assert(pending_ok(self.graph@, self.graph.counters(), self.staged_new_map@)) by {
                            assert forall|j: int| 0 <= j < entries.skip(i as int).len() implies {
                                let kk = (#[trigger] entries.skip(i as int)[j]).0;
                                &&& entries.skip(i as int)[j].1.sym == kk
                                &&& (kk.ty as int) < self.graph.counters().len()
                                &&& kk.serial < self.graph.counters()[kk.ty as int]
                                &&& !g.contains_key(kk)
                            } by {
                                let kk = entries[i + j].0;
                                assert(entries.skip(i as int)[j] == entries[i + j]);
                                if keys.take(i as int).contains(kk) {
                                    let a = choose|a: int| 0 <= a < i && keys.take(i as int)[a] == kk;
                                    assert(keys[a] == keys[i + j]);
                                }
                            }
                        }
                    }
                    return Err(e);
                },
                Ok(_) => {},
            }
            proof {
                lemma_registered_dom(g, node@);
                assert(registrable(m0, entries, i as int));
            }
            self.staged_new_map.remove_index(0);
            created.push(k);
            i += 1;
            proof {
                assert(entries.skip(i - 1).remove(0) =~= entries.skip(i as int));
                assert(entries.take(i as int).drop_last() =~= entries.take(i - 1));
                assert(entries.take(i as int).last() == entries[i - 1]);
                assert(keys.take(i as int) =~= keys.take(i - 1).push(k));
                assert(self.graph@.dom() =~= m0.dom().union(keys.take(i as int).to_set())) by {
                    let now = keys.take(i as int);
                    let was = keys.take(i - 1);
                    assert forall|x: Sym| now.contains(x) <==> (was.contains(x) || x == k) by {
                        if now.contains(x) {
                            let a = choose|a: int| 0 <= a < now.len() && now[a] == x;
                            if a < i - 1 {
                                assert(was[a] == x);
                            }
                        }
                        if was.contains(x) {
                            let a = choose|a: int| 0 <= a < was.len() && was[a] == x;
                            assert(now[a] == x);
                        }
                        assert(now[i - 1] == k);
                    }
                }
            }
        }
        proof {
            assert(entries.take(n as int) =~= entries);
            assert(keys.take(n as int) =~= keys);
            assert(pending_ok(self.graph@, self.graph.counters(), self.staged_new_map@));
            assert forall|t: int| 0 <= t < created@.len() implies self.graph@.contains_key(
                #[trigger] created@[t],
            ) by {
                assert(keys.to_set().contains(keys[t]));
            }
        }
        Ok(created)
    }
}


/// Whether `x` is the current version of one of `keys` or a current
/// ancestor of one.
pub open spec fn back_from(m: Graph, keys: Seq<Sym>, x: Sym) -> bool {
    exists|i: int|
        0 <= i < keys.len() && (x == latest(m, #[trigger] keys[i]) || reachable(
            m,
            Map::empty(),
            false,
            latest(m, keys[i]),
            Seq::empty(),
            x,
        ))
}

/// Whether `x` is the current version of one of the first `n` of `keys`.
pub open spec fn current_among(m: Graph, keys: Seq<Sym>, n: int, x: Sym) -> bool {
    exists|a: int| 0 <= a < n && a < keys.len() && x == latest(m, #[trigger] keys[a])
}

/// Whether `x` is a current ancestor of one of the first `n` of `keys`.
pub open spec fn reached_among(m: Graph, keys: Seq<Sym>, n: int, x: Sym) -> bool {
    exists|a: int|
        0 <= a < n && a < keys.len() && reachable(
            m,
            Map::empty(),
            false,
            latest(m, #[trigger] keys[a]),
            Seq::empty(),
            x,
        )
}

/// The nodes that a commit of the changes staged under `keys` gives new
/// versions: the current versions of the changed nodes and the current
/// ancestors of these, each once.
pub open spec fn staged_affected(m: Graph, keys: Seq<Sym>, olds: Seq<Sym>) -> bool {
    &&& olds.no_duplicates()
    &&& forall|x: Sym| olds.contains(x) <==> back_from(m, keys, x)
}

/// The payload that the new version of each changed node takes, by the
/// current version of the node. Where two changes meet in one node, the
/// later one stands.
pub open spec fn payloads(m: Graph, changes: Seq<(Sym, NodeView)>) -> Map<Sym, NodeView>
    decreases changes.len(),
{
    if changes.len() == 0 {
        Map::empty()
    } else {
        payloads(m, changes.drop_last()).insert(latest(m, changes.last().0), changes.last().1)
    }
}

/// Whether the changes can be taken in: every changed node and every child
/// of a changed payload has a record.
pub open spec fn changes_ok(m: Graph, changes: Seq<(Sym, NodeView)>) -> bool {
    forall|i: int|
        0 <= i < changes.len() ==> {
            &&& m.contains_key((#[trigger] changes[i]).0)
            &&& forall|j: int|
                0 <= j < changes[i].1.succs().len() ==> m.contains_key(
                    #[trigger] changes[i].1.succs()[j],
                )
        }
}

/// Whether `x` is named by the changes (as a changed node or as a child of
/// a changed payload) and has no record.
pub open spec fn bad_change(m: Graph, changes: Seq<(Sym, NodeView)>, x: Sym) -> bool {
    &&& !m.contains_key(x)
    &&& exists|i: int|
        0 <= i < changes.len() && ((#[trigger] changes[i]).0 == x || changes[i].1.succs().contains(
            x,
        ))
}

/// One staged round: the current versions of the changed nodes and their
/// current ancestors (`olds`) get the new versions `news`; the new version
/// of a changed node takes the changed payload; every symbol a new version
/// holds is resolved to its current version.
pub open spec fn staged_step(
    m: Graph,
    counters: Seq<u32>,
    changes: Seq<(Sym, NodeView)>,
    olds: Seq<Sym>,
    news: Seq<Sym>,
    m2: Graph,
    counters2: Seq<u32>,
) -> bool {
    &&& changes_ok(m, changes)
    &&& staged_affected(m, staged_keys(changes), olds)
    &&& room_for(counters, olds)
    &&& minted(counters, olds, news)
    &&& versionable(m, olds, news, payloads(m, changes))
    &&& m2 == versioned(m, olds, news, payloads(m, changes), true)
    &&& counters2 == advanced(counters, olds)
}

/// Whether a staged round for the changes would leave new versions that
/// cannot be put in an order in which every child comes before its parents.
pub open spec fn staged_cyclic(m: Graph, counters: Seq<u32>, changes: Seq<(Sym, NodeView)>) -> bool {
    exists|olds: Seq<Sym>, news: Seq<Sym>| #[trigger]
        staged_step(
            m,
            counters,
            changes,
            olds,
            news,
            versioned(m, olds, news, payloads(m, changes), true),
            advanced(counters, olds),
        ) && forall|o: Seq<Sym>|
            !children_first(versioned(m, olds, news, payloads(m, changes), true), news, o)
}

/// Whether some counter cannot mint what a staged round for the changes
/// needs.
pub open spec fn staged_lacks_room(m: Graph, counters: Seq<u32>, changes: Seq<(Sym, NodeView)>) -> bool {
    exists|olds: Seq<Sym>| #[trigger]
        staged_affected(m, staged_keys(changes), olds) && !room_for(counters, olds)
}

/// A walk that avoids some nodes is a walk.
pub proof fn lemma_reach_weaken(
    m: Graph,
    overlay: Map<Sym, NodeView>,
    forward: bool,
    start: Sym,
    avoid: Seq<Sym>,
    x: Sym,
)
    requires
        reachable(m, overlay, forward, start, avoid, x),
    ensures
        reachable(m, overlay, forward, start, Seq::empty(), x),
{
    let walk = choose|walk: Seq<Sym>| #[trigger]
        is_walk(m, overlay, forward, start, avoid, walk) && walk.last() == x;
    assert(is_walk(m, overlay, forward, start, Seq::empty(), walk));
}

/// A search that is done with a node stays done with it when the set grows.
pub proof fn lemma_closed_mono(
    m: Graph,
    overlay: Map<Sym, NodeView>,
    forward: bool,
    seen: Seq<Sym>,
    more: Seq<Sym>,
    x: Sym,
)
    requires
        closed_at(m, overlay, forward, seen, x),
        forall|y: Sym| seen.contains(y) ==> more.contains(y),
    ensures
        closed_at(m, overlay, forward, more, x),
{
    let es = edges(m, overlay, forward, x);
    assert forall|j: int| 0 <= j < es.len() implies handled(m, more, #[trigger] es[j]) by {
        assert(handled(m, seen, es[j]));
    }
}

/// Every payload of a round is the payload of one of the changes.
pub proof fn lemma_payloads_from(m: Graph, changes: Seq<(Sym, NodeView)>, l: Sym)
    requires
        payloads(m, changes).contains_key(l),
    ensures
        exists|i: int|
            0 <= i < changes.len() && l == latest(m, (#[trigger] changes[i]).0) && payloads(
                m,
                changes,
            )[l] == changes[i].1,
    decreases changes.len(),
{
    if changes.len() > 0 {
        if l == latest(m, changes.last().0) {
            assert(changes[changes.len() - 1] == changes.last());
        } else {
            lemma_payloads_from(m, changes.drop_last(), l);
            let i = choose|i: int|
                0 <= i < changes.drop_last().len() && l == latest(
                    m,
                    (#[trigger] changes.drop_last()[i]).0,
                ) && payloads(m, changes.drop_last())[l] == changes.drop_last()[i].1;
            assert(changes[i] == changes.drop_last()[i]);
        }
    }
}

impl RxVT {
    /// Carries the given changes through the working graph: the current
    /// version of each changed node and the current ancestors of these get
    /// new versions, of which those of the changed nodes take the changed
    /// payloads. Returns the nodes that got new versions and, at the same
    /// positions, the symbols of these.
    ///
    /// Refused as a bad reference where a changed node or a child of a
    /// changed payload has no record, as unsupported where a counter cannot
    /// mint what the round needs, and as a cycle where the new versions
    /// could not be ordered. A refusal comes before anything is written:
    /// nothing changes.
    pub fn update_symnodes(&mut self, changes: &StagedNodes) -> (r: Result<
        (Vec<Sym>, Vec<Sym>),
        RxError,
    >)
        requires
            old(self).wf(),
            changes.wf(),
        ensures
            final(self).wf(),
            final(self).sent() == old(self).sent(),
            final(self).names() == old(self).names(),
            final(self).staged_set() == old(self).staged_set(),
            final(self).staged_new() == old(self).staged_new(),
            final(self).history() == old(self).history(),
            match r {
                Ok(made) => {
                    &&& staged_step(
                        old(self)@,
                        old(self).counters(),
                        changes@,
                        made.0@,
                        made.1@,
                        final(self)@,
                        final(self).counters(),
                    )
                    &&& exists|o: Seq<Sym>| children_first(final(self)@, made.1@, o)
                },
                Err(RxError::BadReference(x)) => {
                    &&& final(self)@ == old(self)@
                    &&& final(self).counters() == old(self).counters()
                    &&& bad_change(old(self)@, changes@, x)
                },
                Err(RxError::UnsupportedOperation) => {
                    &&& final(self)@ == old(self)@
                    &&& final(self).counters() == old(self).counters()
                    &&& changes_ok(old(self)@, changes@)
                    &&& staged_lacks_room(old(self)@, old(self).counters(), changes@)
                },
                Err(RxError::CycleViolation) => {
                    &&& final(self)@ == old(self)@
                    &&& final(self).counters() == old(self).counters()
                    &&& staged_cyclic(old(self)@, old(self).counters(), changes@)
                },
                Err(RxError::BackendRejection) => false,
            },
    {
        let ghost m = self.graph@;
        let ghost c0 = self.graph.counters();
        let ghost keys = staged_keys(changes@);
        let n: usize = changes.len();
        // every changed node and every child of a changed payload needs a record
        let mut i: usize = 0;
        while i < n
            invariant
                self.sent() == old(self).sent(),
                self.wf(),
                *self == *old(self),
                m == self.graph@,
                n == changes@.len(),
                i <= n,
                forall|a: int|
                    0 <= a < i ==> {
                        &&& m.contains_key((#[trigger] changes@[a]).0)
                        &&& forall|j: int|
                            0 <= j < changes@[a].1.succs().len() ==> m.contains_key(
                                #[trigger] changes@[a].1.succs()[j],
                            )
                    },
            decreases n - i,
        {
            let (k, node) = match changes.get_index(i) {
                Some(e) => e,
                None => unreached(),
            };
            if !self.graph.contains(k) {
                proof {
                    assert(changes@[i as int].0 == k);
                }
                return Err(RxError::BadReference(k));
            }
            let succs = node.succs();
            let mut j: usize = 0;
            while j < succs.len()
                invariant
                    self.sent() == old(self).sent(),
                    self.wf(),
                    *self == *old(self),
                    m == self.graph@,
                    i < changes@.len(),
                    j <= succs@.len(),
                    succs@ == changes@[i as int].1.succs(),
                    forall|b: int| 0 <= b < j ==> m.contains_key(#[trigger] succs@[b]),
                decreases succs.len() - j,
            {
                if !self.graph.contains(succs[j]) {
                    proof {
                        assert(changes@[i as int].1.succs()[j as int] == succs@[j as int]);
                        assert(changes@[i as int].1.succs().contains(succs@[j as int]));
                    }
                    return Err(RxError::BadReference(succs[j]));
                }
                j += 1;
            }
            i += 1;
        }
        assert(changes_ok(m, changes@));
        // the current ancestors of every changed node
        let mut olds = SymSet::new();
        let mut i: usize = 0;
        while i < n
            invariant
                self.sent() == old(self).sent(),
                self.wf(),
                *self == *old(self),
                m == self.graph@,
                c0 == self.graph.counters(),
                keys == staged_keys(changes@),
                n == changes@.len(),
                i <= n,
                olds.wf(),
                changes_ok(m, changes@),
                forall|x: Sym| #[trigger] olds@.contains(x) ==> reached_among(m, keys, i as int, x),
                forall|x: Sym|
                    olds@.contains(x) && m.contains_key(x) ==> #[trigger] closed_at(
                        m,
                        Map::empty(),
                        false,
                        olds@,
                        x,
                    ),
                forall|a: int|
                    0 <= a < i ==> closed_at(
                        m,
                        Map::empty(),
                        false,
                        olds@,
                        latest(m, #[trigger] keys[a]),
                    ),
            decreases n - i,
        {
            let (k, _node) = match changes.get_index(i) {
                Some(e) => e,
                None => unreached(),
            };
            let ghost before = olds@;
            proof {
                assert(keys[i as int] == k);
                assert(m.contains_key(changes@[i as int].0));
                lemma_latest_props(m, c0, k);
            }
            let l: Sym = self.graph.latest(k);
            match self.graph.collect_latest_ancestors(l, &mut olds) {
                Ok(_) => {},
                Err(_) => {
                    proof {
                        assert(false);
                    }
                },
            }
            proof {
                assert forall|x: Sym| #[trigger] olds@.contains(x) implies reached_among(
                    m,
                    keys,
                    i + 1,
                    x,
                ) by {
                    if before.contains(x) {
                        assert(reached_among(m, keys, i as int, x));
                        let a = choose|a: int|
                            0 <= a < i && a < keys.len() && reachable(
                                m,
                                Map::empty(),
                                false,
                                latest(m, #[trigger] keys[a]),
                                Seq::empty(),
                                x,
                            );
                        assert(0 <= a < i + 1);
                    } else {
                        lemma_reach_weaken(m, Map::empty(), false, l, before, x);
                        assert(reachable(
                            m,
                            Map::empty(),
                            false,
                            latest(m, keys[i as int]),
                            Seq::empty(),
                            x,
                        ));
                    }
                }
                assert forall|x: Sym| olds@.contains(x) && m.contains_key(x) implies #[trigger] closed_at(
                    m,
                    Map::empty(),
                    false,
                    olds@,
                    x,
                ) by {
                    if before.contains(x) {
                        lemma_closed_mono(m, Map::empty(), false, before, olds@, x);
                    } else {
                        assert(in_search(l, before, olds@, x));
                    }
                }
                assert forall|a: int| 0 <= a < i + 1 implies closed_at(
                    m,
                    Map::empty(),
                    false,
                    olds@,
                    latest(m, #[trigger] keys[a]),
                ) by {
                    if a < i {
                        lemma_closed_mono(
                            m,
                            Map::empty(),
                            false,
                            before,
                            olds@,
                            latest(m, keys[a]),
                        );
                    } else {
                        assert(in_search(l, before, olds@, l));
                    }
                }
            }
            i += 1;
        }
        let ghost found = olds@;
        proof {
            // every current ancestor of a changed node was found
            assert forall|x: Sym| reached_among(m, keys, n as int, x) implies found.contains(x) by {
                let a = choose|a: int|
                    0 <= a < n && a < keys.len() && reachable(
                        m,
                        Map::empty(),
                        false,
                        latest(m, #[trigger] keys[a]),
                        Seq::empty(),
                        x,
                    );
                let start = latest(m, keys[a]);
                let walk = choose|walk: Seq<Sym>| #[trigger]
                    is_walk(m, Map::empty(), false, start, Seq::empty(), walk)
                        && walk.last() == x;
                assert forall|y: Sym|
                    in_search(start, Seq::empty(), found, y) && m.contains_key(
                        y,
                    ) implies #[trigger] closed_at(
                    m,
                    Map::empty(),
                    false,
                    found,
                    y,
                ) by {}
                lemma_closed_complete(
                    m,
                    Map::empty(),
                    false,
                    start,
                    Seq::empty(),
                    found,
                    walk,
                );
            }
        }
        // and the current versions of the changed nodes themselves
        let mut i: usize = 0;
        proof {
            assert forall|x: Sym| #[trigger] olds@.contains(x) <==> (found.contains(x)
                || current_among(m, keys, 0, x)) by {}
        }
        while i < n
            invariant
                self.sent() == old(self).sent(),
                self.wf(),
                *self == *old(self),
                m == self.graph@,
                c0 == self.graph.counters(),
                keys == staged_keys(changes@),
                n == changes@.len(),
                i <= n,
                olds.wf(),
                changes_ok(m, changes@),
                forall|x: Sym| #[trigger]
                    olds@.contains(x) <==> (found.contains(x) || current_among(
                        m,
                        keys,
                        i as int,
                        x,
                    )),
            decreases n - i,
        {
            let (k, _node) = match changes.get_index(i) {
                Some(e) => e,
                None => unreached(),
            };
            let ghost before = olds@;
            let l: Sym = self.graph.latest(k);
            olds.insert(l);
            proof {
                assert(keys[i as int] == k);
                assert forall|x: Sym| #[trigger] olds@.contains(x) <==> (before.contains(x) || x
                    == l) by {
                    if olds@.contains(x) {
                        let t = choose|t: int| 0 <= t < olds@.len() && olds@[t] == x;
                        if t < before.len() {
                            assert(before[t] == x);
                        }
                    }
                    if before.contains(x) {
                        let t = choose|t: int| 0 <= t < before.len() && before[t] == x;
                        assert(olds@[t] == x);
                    }
                    if x == l && !before.contains(l) {
                        assert(olds@[before.len() as int] == l);
                    }
                }
                assert forall|x: Sym| current_among(m, keys, i + 1, x) <==> (current_among(
                    m,
                    keys,
                    i as int,
                    x,
                ) || x == l) by {
                    if current_among(m, keys, i + 1, x) {
                        let a = choose|a: int|
                            0 <= a < i + 1 && a < keys.len() && x == latest(m, #[trigger] keys[a]);
                        if a < i {
                            assert(current_among(m, keys, i as int, x));
                        }
                    }
                    if current_among(m, keys, i as int, x) {
                        let a = choose|a: int|
                            0 <= a < i && a < keys.len() && x == latest(m, #[trigger] keys[a]);
                        assert(0 <= a < i + 1);
                    }
                    if x == l {
                        assert(x == latest(m, keys[i as int]));
                    }
                }
                assert forall|x: Sym| #[trigger]
                    olds@.contains(x) <==> (found.contains(x) || current_among(
                        m,
                        keys,
                        i + 1,
                        x,
                    )) by {
                    assert(before.contains(x) <==> (found.contains(x) || current_among(
                        m,
                        keys,
                        i as int,
                        x,
                    )));
                }
            }
            i += 1;
        }
        proof {
            assert forall|x: Sym| olds@.contains(x) <==> back_from(m, keys, x) by {
                if olds@.contains(x) {
                    if found.contains(x) {
                        assert(reached_among(m, keys, n as int, x));
                        let a = choose|a: int|
                            0 <= a < n && a < keys.len() && reachable(
                                m,
                                Map::empty(),
                                false,
                                latest(m, #[trigger] keys[a]),
                                Seq::empty(),
                                x,
                            );
                        assert(back_from(m, keys, x));
                    } else {
                        assert(current_among(m, keys, n as int, x));
                        let a = choose|a: int|
                            0 <= a < n && a < keys.len() && x == latest(m, #[trigger] keys[a]);
                        assert(back_from(m, keys, x));
                    }
                }
                if back_from(m, keys, x) {
                    let a = choose|a: int|
                        0 <= a < keys.len() && (x == latest(m, #[trigger] keys[a]) || reachable(
                            m,
                            Map::empty(),
                            false,
                            latest(m, keys[a]),
                            Seq::empty(),
                            x,
                        ));
                    if x != latest(m, keys[a]) {
                        assert(reached_among(m, keys, n as int, x));
                    } else {
                        assert(current_among(m, keys, n as int, x));
                    }
                }
            }
            assert(staged_affected(m, keys, olds@));
            assert forall|t: int| 0 <= t < olds@.len() implies is_latest(m, #[trigger] olds@[t]) by {
                let x = olds@[t];
                assert(olds@.contains(x));
                assert(back_from(m, keys, x));
                let a = choose|a: int|
                    0 <= a < keys.len() && (x == latest(m, #[trigger] keys[a]) || reachable(
                        m,
                        Map::empty(),
                        false,
                        latest(m, keys[a]),
                        Seq::empty(),
                        x,
                    ));
                assert(m.contains_key(changes@[a].0));
                lemma_latest_props(m, c0, keys[a]);
                if x != latest(m, keys[a]) {
                    lemma_reached_is_latest(
                        m,
                        Map::empty(),
                        false,
                        latest(m, keys[a]),
                        Seq::empty(),
                        x,
                    );
                }
            }
        }
        if !self.graph.has_room_for(&olds) {
            return Err(RxError::UnsupportedOperation);
        }
        // the payload for the new version of each changed node
        let mut repl = StagedNodes::new();
        let mut i: usize = 0;
        proof {
            assert(changes@.take(0) =~= Seq::<(Sym, NodeView)>::empty());
            assert(staged_map(repl@) =~= payloads(m, changes@.take(0)));
        }
        while i < n
            invariant
                self.sent() == old(self).sent(),
                self.wf(),
                *self == *old(self),
                m == self.graph@,
                n == changes@.len(),
                i <= n,
                repl.wf(),
                staged_map(repl@) == payloads(m, changes@.take(i as int)),
            decreases n - i,
        {
            let (k, node) = match changes.get_index(i) {
                Some(e) => e,
                None => unreached(),
            };
            let l: Sym = self.graph.latest(k);
            repl.insert(l, node);
            i += 1;
            proof {
                assert(changes@.take(i as int).drop_last() =~= changes@.take(i - 1));
                assert(changes@.take(i as int).last() == changes@[i - 1]);
            }
        }
        proof {
            assert(changes@.take(n as int) =~= changes@);
            assert forall|a: int, b: int|
                0 <= a < olds@.len() && staged_map(repl@).contains_key(#[trigger] olds@[a]) && 0
                    <= b < staged_map(repl@)[olds@[a]].succs().len() implies m.contains_key(
                #[trigger] staged_map(repl@)[olds@[a]].succs()[b],
            ) by {
                lemma_payloads_from(m, changes@, olds@[a]);
                let t = choose|t: int|
                    0 <= t < changes@.len() && olds@[a] == latest(m, (#[trigger] changes@[t]).0)
                        && payloads(m, changes@)[olds@[a]] == changes@[t].1;
                assert(m.contains_key(changes@[t].1.succs()[b]));
            }
        }
        let ghost pending = self.staged_new_map@;
        let (news, order) = match self.graph.version_up(&olds, &repl, true) {
            Ok(made) => made,
            Err(_) => {
                proof {
                    let rp = payloads(m, changes@);
                    let news = choose|news: Seq<Sym>| #[trigger]
                        minted(c0, olds@, news) && forall|o: Seq<Sym>|
                            !children_first(versioned(m, olds@, news, rp, true), news, o);
                    lemma_minted_versionable(m, c0, olds@, news, rp);
                    assert(staged_step(
                        m,
                        c0,
                        changes@,
                        olds@,
                        news,
                        versioned(m, olds@, news, rp, true),
                        advanced(c0, olds@),
                    ));
                }
                return Err(RxError::CycleViolation);
            },
        };
        proof {
            assert(children_first(self.graph@, news@, order@));
            // the nodes that wait for their registration are still without record
            assert forall|t: int| 0 <= t < pending.len() implies {
                let k = (#[trigger] pending[t]).0;
                &&& pending[t].1.sym == k
                &&& (k.ty as int) < self.graph.counters().len()
                &&& k.serial < self.graph.counters()[k.ty as int]
                &&& !self.graph@.contains_key(k)
            } by {
                let k = pending[t].0;
                assert(k.serial < c0[k.ty as int]);
                if news@.contains(k) {
                    let a = choose|a: int| 0 <= a < news@.len() && news@[a] == k;
                    assert(news@[a].serial >= c0[news@[a].ty as int]);
                }
            }
        }
        Ok((olds.to_vec(), news))
    }
}


/// Whether `x` belongs to a commit of `root`: it is the root, or a walk
/// along the child edges leads from the root to it.
pub open spec fn in_commit(m: Graph, overlay: Map<Sym, NodeView>, root: Sym, x: Sym) -> bool {
    x == root || reachable(m, overlay, true, root, Seq::empty(), x)
}

/// The symbols under which the changes that a commit of `root` takes are
/// staged: each staged symbol that belongs to the commit, once.
pub open spec fn taken_by(m: Graph, staged: Seq<(Sym, NodeView)>, root: Sym, taken: Seq<Sym>) -> bool {
    &&& taken.no_duplicates()
    &&& forall|k: Sym|
        taken.contains(k) <==> (staged_keys(staged).contains(k) && in_commit(
            m,
            staged_map(staged),
            root,
            k,
        ))
}

/// The changes staged under the taken symbols, in the order of these.
pub open spec fn picked(staged: Seq<(Sym, NodeView)>, taken: Seq<Sym>) -> Seq<(Sym, NodeView)> {
    Seq::new(taken.len(), |i: int| (taken[i], staged_map(staged)[taken[i]]))
}

/// Whether some counter cannot mint what a commit of `root` needs.
pub open spec fn commit_lacks_room(
    m: Graph,
    counters: Seq<u32>,
    staged: Seq<(Sym, NodeView)>,
    root: Sym,
) -> bool {
    exists|taken: Seq<Sym>| #[trigger]
        taken_by(m, staged, root, taken) && staged_lacks_room(m, counters, picked(staged, taken))
}

/// Whether a commit of `root` would leave new versions that cannot be put
/// in an order in which every child comes before its parents.
pub open spec fn commit_cyclic(
    m: Graph,
    counters: Seq<u32>,
    staged: Seq<(Sym, NodeView)>,
    root: Sym,
) -> bool {
    exists|taken: Seq<Sym>| #[trigger]
        taken_by(m, staged, root, taken) && staged_cyclic(m, counters, picked(staged, taken))
}

impl RxVT {
    /// Carries the staged changes below `root` through the working graph:
    /// the changes staged under `root` or under a node that a walk along
    /// the child edges leads to leave the staged ones, and the current
    /// versions of the changed nodes and the current ancestors of these get
    /// new versions. Returns the symbols under which the changes were
    /// staged, and the round with the text to send.
    ///
    /// Refused as a bad reference where the root or a node met on the walk
    /// has no record, as unsupported where a counter cannot mint what the
    /// round needs, and as a cycle where the new versions could not be
    /// ordered. A refusal comes before anything is written: nothing
    /// changes.
    pub fn commit_staged(&mut self, root: Sym) -> (r: Result<(Vec<Sym>, Batch), RxError>)
        requires
            old(self).wf(),
        ensures
            final(self).wf(),
            final(self).sent() == old(self).sent(),
            final(self).names() == old(self).names(),
            final(self).staged_new() == old(self).staged_new(),
            final(self).history() == old(self).history(),
            match r {
                Ok(done) => {
                    &&& taken_by(old(self)@, old(self).staged_set(), root, done.0@)
                    &&& staged_step(
                        old(self)@,
                        old(self).counters(),
                        picked(old(self).staged_set(), done.0@),
                        done.1.olds@,
                        done.1.news@,
                        final(self)@,
                        final(self).counters(),
                    )
                    &&& staged_map(final(self).staged_set()) == staged_map(
                        old(self).staged_set(),
                    ).remove_keys(done.0@.to_set())
                    &&& children_first(final(self)@, done.1.news@, done.1.order@)
                    &&& done.1.text@ == batch_text(final(self).names(), final(self)@, done.1.order@)
                },
                Err(RxError::BadReference(x)) => {
                    &&& final(self)@ == old(self)@
                    &&& final(self).counters() == old(self).counters()
                    &&& final(self).staged_set() == old(self).staged_set()
                    &&& if old(self)@.contains_key(root) {
                        dangling(
                            old(self)@,
                            staged_map(old(self).staged_set()),
                            true,
                            root,
                            Seq::empty(),
                            x,
                        )
                    } else {
                        x == root
                    }
                },
                Err(RxError::UnsupportedOperation) => {
                    &&& final(self)@ == old(self)@
                    &&& final(self).counters() == old(self).counters()
                    &&& final(self).staged_set() == old(self).staged_set()
                    &&& old(self)@.contains_key(root)
                    &&& commit_lacks_room(
                        old(self)@,
                        old(self).counters(),
                        old(self).staged_set(),
                        root,
                    )
                },
                Err(RxError::CycleViolation) => {
                    &&& final(self)@ == old(self)@
                    &&& final(self).counters() == old(self).counters()
                    &&& final(self).staged_set() == old(self).staged_set()
                    &&& old(self)@.contains_key(root)
                    &&& commit_cyclic(
                        old(self)@,
                        old(self).counters(),
                        old(self).staged_set(),
                        root,
                    )
                },
                Err(RxError::BackendRejection) => false,
            },
    {
        let ghost m = self.graph@;
        let ghost c0 = self.graph.counters();
        let ghost staged = self.staged_set_map@;
        let ghost ov = staged_map(staged);
        // the nodes of the commit
        let mut desc = SymSet::new();
        match self.graph.collect_descendants(root, &mut desc, &self.staged_set_map) {
            Ok(_) => {},
            Err(e) => {
                return Err(e);
            },
        }
        let ghost below = desc@;
        desc.insert(root);
        let ghost all = desc@;
        proof {
            assert forall|x: Sym| all.contains(x) <==> in_commit(m, ov, root, x) by {
                if all.contains(x) {
                    let t = choose|t: int| 0 <= t < all.len() && all[t] == x;
                    if t < below.len() {
                        assert(below[t] == x);
                        assert(below.contains(x));
                    }
                }
                if below.contains(x) {
                    let t = choose|t: int| 0 <= t < below.len() && below[t] == x;
                    assert(all[t] == x);
                }
                if x == root && !below.contains(root) {
                    assert(all[below.len() as int] == root);
                }
            }
        }
        // the staged changes among them
        let mut changes = StagedNodes::new();
        let mut taken: Vec<Sym> = Vec::new();
        let n: usize = desc.len();
        let mut i: usize = 0;
        proof {
            assert(changes@ =~= picked(staged, taken@));
        }
        while i < n
            invariant
                self.sent() == old(self).sent(),
                self.wf(),
                *self == *old(self),
                staged == self.staged_set_map@,
                desc.wf(),
                all == desc@,
                n == all.len(),
                i <= n,
                changes.wf(),
                changes@ == picked(staged, taken@),
                taken@.no_duplicates(),
                forall|k: Sym| #[trigger]
                    taken@.contains(k) <==> (all.take(i as int).contains(k) && staged_keys(
                        staged,
                    ).contains(k)),
            decreases n - i,
        {
            let x: Sym = match desc.get_index(i) {
                Some(x) => x,
                None => unreached(),
            };
            let ghost was = taken@;
            let ghost part = all.take(i as int);
            proof {
                assert(!part.contains(x)) by {
                    if part.contains(x) {
                        let t = choose|t: int| 0 <= t < part.len() && part[t] == x;
                        assert(all[t] == all[i as int]);
                    }
                }
                assert(staged_keys(changes@) =~= was);
            }
            match self.staged_set_map.get(x) {
                Some(node) => {
                    changes.insert(x, node);
                    taken.push(x);
                    proof {
                        assert(changes@ =~= picked(staged, taken@));
                        assert forall|a: int, b: int|
                            0 <= a < taken@.len() && 0 <= b < taken@.len() && a != b implies taken@[a]
                            != taken@[b] by {
                            if a < was.len() && b < was.len() {
                                assert(was[a] != was[b]);
                            } else if a < was.len() {
                                assert(was.contains(was[a]));
                            } else {
                                assert(was.contains(was[b]));
                            }
                        }
                    }
                },
                None => {},
            }
            i += 1;
            proof {
                let now = all.take(i as int);
                assert forall|k: Sym| now.contains(k) <==> (part.contains(k) || k == x) by {
                    if now.contains(k) {
                        let t = choose|t: int| 0 <= t < now.len() && now[t] == k;
                        if t < i - 1 {
                            assert(part[t] == k);
                        }
                    }
                    if part.contains(k) {
                        let t = choose|t: int| 0 <= t < part.len() && part[t] == k;
                        assert(now[t] == k);
                    }
                    assert(now[i - 1] == x);
                }
                assert forall|k: Sym| #[trigger]
                    taken@.contains(k) <==> (now.contains(k) && staged_keys(staged).contains(
                        k,
                    )) by {
                    if taken@.contains(k) {
                        let t = choose|t: int| 0 <= t < taken@.len() && taken@[t] == k;
                        if t < was.len() {
                            assert(was[t] == k);
                            assert(was.contains(k));
                        }
                    }
                    if was.contains(k) {
                        let t = choose|t: int| 0 <= t < was.len() && was[t] == k;
                        assert(taken@[t] == k);
                    }
                    if k == x && staged_keys(staged).contains(x) {
                        assert(taken@[was.len() as int] == x);
                    }
                }
            }
        }
        proof {
            assert(all.take(n as int) =~= all);
            assert(taken_by(m, staged, root, taken@));
        }
        // carry them through
        let made = match self.update_symnodes(&changes) {
            Ok(made) => made,
            Err(RxError::UnsupportedOperation) => {
                return Err(RxError::UnsupportedOperation);
            },
            Err(RxError::CycleViolation) => {
                return Err(RxError::CycleViolation);
            },
            Err(RxError::BadReference(x)) => {
                proof {
                    let t = choose|t: int|
                        0 <= t < changes@.len() && ((#[trigger] changes@[t]).0 == x
                            || changes@[t].1.succs().contains(x));
                    let k = taken@[t];
                    assert(taken@.contains(k));
                    assert(in_commit(m, ov, root, k));
                    if k != root {
                        lemma_reached_is_latest(m, ov, true, root, Seq::empty(), k);
                    }
                    if changes@[t].0 != x {
                        assert(ov.contains_key(k));
                        assert(edges(m, ov, true, k).contains(x));
                        assert(dangling(m, ov, true, root, Seq::empty(), x));
                    }
                    assert(false);
                }
                return Err(RxError::BadReference(x));
            },
            Err(e) => {
                return Err(e);
            },
        };
        // the changes that were carried through are staged no longer
        let mut j: usize = 0;
        proof {
            assert(taken@.take(0).to_set() =~= Set::<Sym>::empty());
            assert(staged_map(staged).remove_keys(Set::<Sym>::empty()) =~= staged_map(staged));
        }
        while j < taken.len()
            invariant
                self.sent() == old(self).sent(),
                self.graph.wf(),
                self.staged_set_map.wf(),
                self.staged_new_map.wf(),
                pending_ok(self.graph@, self.graph.counters(), self.staged_new_map@),
                self.graph.names() == old(self).names(),
                self.staged_new_map@ == old(self).staged_new(),
                self.history() == old(self).history(),
                staged_step(
                    m,
                    c0,
                    picked(staged, taken@),
                    made.0@,
                    made.1@,
                    self.graph@,
                    self.graph.counters(),
                ),
                j <= taken@.len(),
                staged_map(self.staged_set_map@) == staged_map(staged).remove_keys(
                    taken@.take(j as int).to_set(),
                ),
            decreases taken.len() - j,
        {
            let ghost cur = self.staged_set_map@;
            match self.staged_set_map.get_index_of(taken[j]) {
                Some(at) => {
                    proof {
                        lemma_staged_map_remove(cur, at as int);
                    }
                    self.staged_set_map.remove_index(at);
                },
                None => {
                    proof {
                        assert(staged_map(cur).remove(taken@[j as int]) =~= staged_map(cur));
                    }
                },
            }
            j += 1;
            proof {
                let now = taken@.take(j as int);
                let was = taken@.take(j - 1);
                assert(now.to_set() =~= was.to_set().insert(taken@[j - 1])) by {
                    assert forall|k: Sym| now.contains(k) <==> (was.contains(k) || k == taken@[j
                        - 1]) by {
                        if now.contains(k) {
                            let t = choose|t: int| 0 <= t < now.len() && now[t] == k;
                            if t < j - 1 {
                                assert(was[t] == k);
                            }
                        }
                        if was.contains(k) {
                            let t = choose|t: int| 0 <= t < was.len() && was[t] == k;
                            assert(now[t] == k);
                        }
                        assert(now[j - 1] == taken@[j - 1]);
                    }
                }
                assert(staged_map(self.staged_set_map@) =~= staged_map(staged).remove_keys(
                    now.to_set(),
                ));
            }
        }
        proof {
            assert(taken@.take(taken@.len() as int) =~= taken@);
        }
        // order the new versions and write them down
        let members = SymSet::from_distinct(&made.1);
        let order = match self.graph.topo_sort(&members, TopoDirection::Up) {
            Ok(order) => order,
            Err(e) => {
                proof {
                    assert(false);
                }
                return Err(e);
            },
        };
        proof {
            assert forall|t: int| 0 <= t < order@.len() implies self.graph@.contains_key(
                #[trigger] order@[t],
            ) by {
                assert(order@.contains(order@[t]));
                assert(made.1@.contains(order@[t]));
            }
        }
        let text = self.graph.render_all(&order);
        Ok((taken, Batch { olds: made.0, news: made.1, order, text }))
    }
}


/// What one commit did.
#[derive(Debug)]
pub struct Committed {
    /// The new nodes that were registered, in creation order.
    pub created: Vec<Sym>,
    /// The symbols under which the changes that were carried through had
    /// been staged.
    pub taken: Vec<Sym>,
    /// The round of new versions.
    pub batch: Batch,
    /// The texts to hand to the reasoning engine, in this order: the
    /// assertion of each new node, then the assertions of the new versions
    /// as one text, where there are any.
    pub texts: Vec<String>,
}

/// A commit that was refused.
#[derive(Debug)]
pub struct Refused {
    /// Why the commit ended.
    pub error: RxError,
    /// The new nodes that were registered before it ended, in creation
    /// order.
    pub created: Vec<Sym>,
    /// The assertion of each of these, to hand to the reasoning engine.
    pub texts: Vec<String>,
}

/// What a list of texts holds.
pub open spec fn texts_view(texts: Seq<String>) -> Seq<Seq<char>> {
    Seq::new(texts.len(), |i: int| texts[i]@)
}

/// The assertions of the new nodes that a commit registers, in creation
/// order.
pub open spec fn created_texts(names: Seq<Seq<char>>, m: Graph, created: Seq<Sym>) -> Seq<
    Seq<char>,
> {
    Seq::new(created.len(), |i: int| node_text(names, m[created[i]].node))
}

/// The texts of a commit: the assertions of the new nodes, then the text of
/// the round, unless the round made no new version.
pub open spec fn commit_texts(
    names: Seq<Seq<char>>,
    m: Graph,
    created: Seq<Sym>,
    news: Seq<Sym>,
    text: Seq<char>,
) -> Seq<Seq<char>> {
    if news.len() == 0 {
        created_texts(names, m, created)
    } else {
        created_texts(names, m, created).push(text)
    }
}

/// The record of a commit of `root` that began with the given nodes
/// staged.
pub open spec fn checkpoint_of(
    root: Sym,
    staged_set: Seq<(Sym, NodeView)>,
    staged_new: Seq<(Sym, NodeView)>,
) -> CheckPointView {
    CheckPointView {
        root,
        staged_set: staged_keys(staged_set),
        staged_new: staged_keys(staged_new),
    }
}

impl RxVT {
    /// The assertion of each of `created`, in order.
    fn texts_of(&self, created: &Vec<Sym>) -> (texts: Vec<String>)
        requires
            self.graph.wf(),
            forall|t: int| 0 <= t < created@.len() ==> self.graph@.contains_key(#[trigger] created@[t]),
        ensures
            texts_view(texts@) == created_texts(self.graph.names(), self.graph@, created@),
    {
        let ghost g1 = self.graph@;
        let ghost names0 = self.graph.names();
        let ghost ct = created_texts(names0, g1, created@);
        let mut texts: Vec<String> = Vec::new();
        let mut i: usize = 0;
        while i < created.len()
            invariant
                self.graph.wf(),
                i <= created@.len(),
                self.graph@ == g1,
                self.graph.names() == names0,
                ct == created_texts(names0, g1, created@),
                forall|t: int| 0 <= t < created@.len() ==> g1.contains_key(#[trigger] created@[t]),
                texts_view(texts@) == ct.take(i as int),
            decreases created.len() - i,
        {
            let mut one: Vec<Sym> = Vec::new();
            one.push(created[i]);
            proof {
                assert(g1.contains_key(created@[i as int]));
            }
            let text = self.graph.render_all(&one);
            proof {
                assert(one@.drop_last() =~= Seq::<Sym>::empty());
                assert(one@.last() == created@[i as int]);
                assert(batch_text(names0, g1, Seq::<Sym>::empty()) =~= Seq::<char>::empty());
                assert(batch_text(names0, g1, one@) =~= node_text(
                    names0,
                    g1[created@[i as int]].node,
                ));
                assert(text@ =~= ct[i as int]);
            }
            let ghost before = texts@;
            texts.push(text);
            i += 1;
            proof {
                assert(texts_view(texts@) =~= texts_view(before).push(ct[i - 1]));
                assert(ct.take(i as int) =~= ct.take(i - 1).push(ct[i - 1]));
            }
        }
        proof {
            assert(ct.take(created@.len() as int) =~= ct);
        }
        texts
    }

    /// Commits below the node `node`: registers the new nodes that wait, as
    /// [`RxVT::commit_new`] does; carries the staged changes below the node
    /// through the working graph, as [`RxVT::commit_staged`] does; then adds
    /// the commit to the history. Returns what was done, with the texts to
    /// hand to the reasoning engine.
    ///
    /// The first refusal ends the commit. The new nodes that were registered
    /// until then stay registered, and the refusal comes with them and with
    /// their assertions. No change is carried through, and the history
    /// does not grow.
    pub fn on_commit(&mut self, node: &Node) -> (r: Result<Committed, Refused>)
        requires
            old(self).wf(),
        ensures
            final(self).wf(),
            final(self).names() == old(self).names(),
            final(self).sent() == old(self).sent(),
            match r {
                Ok(done) => {
                    let g1 = registered_all(old(self)@, old(self).staged_new());
                    &&& forall|i: int|
                        0 <= i < old(self).staged_new().len() ==> registrable(
                            old(self)@,
                            old(self).staged_new(),
                            i,
                        )
                    &&& done.created@ == staged_keys(old(self).staged_new())
                    &&& final(self).staged_new().len() == 0
                    &&& taken_by(g1, old(self).staged_set(), node@.sym, done.taken@)
                    &&& staged_step(
                        g1,
                        old(self).counters(),
                        picked(old(self).staged_set(), done.taken@),
                        done.batch.olds@,
                        done.batch.news@,
                        final(self)@,
                        final(self).counters(),
                    )
                    &&& staged_map(final(self).staged_set()) == staged_map(
                        old(self).staged_set(),
                    ).remove_keys(done.taken@.to_set())
                    &&& children_first(final(self)@, done.batch.news@, done.batch.order@)
                    &&& done.batch.text@ == batch_text(
                        final(self).names(),
                        final(self)@,
                        done.batch.order@,
                    )
                    &&& texts_view(done.texts@) == commit_texts(
                        final(self).names(),
                        g1,
                        done.created@,
                        done.batch.news@,
                        done.batch.text@,
                    )
                    &&& final(self).history() == old(self).history().push(
                        checkpoint_of(node@.sym, old(self).staged_set(), old(self).staged_new()),
                    )
                },
                Err(refused) => {
                    let g1 = registered_all(old(self)@, old(self).staged_new());
                    let e = refused.error;
                    &&& final(self).history() == old(self).history()
                    &&& {
                        ||| {
                            // a new node names a child without record
                            &&& final(self).counters() == old(self).counters()
                            &&& final(self).staged_set() == old(self).staged_set()
                            &&& texts_view(refused.texts@) == created_texts(
                                final(self).names(),
                                final(self)@,
                                refused.created@,
                            )
                            &&& exists|i: int| #[trigger]
                                stuck_at(old(self)@, old(self).staged_new(), i, e)
                                    && final(self)@ == registered_all(
                                    old(self)@,
                                    old(self).staged_new().take(i),
                                ) && final(self).staged_new() == old(self).staged_new().skip(i)
                                    && refused.created@ == staged_keys(old(self).staged_new()).take(
                                    i,
                                )
                        }
                        ||| {
                            // the new nodes are registered, and no change was carried through
                            &&& refused.created@ == staged_keys(old(self).staged_new())
                            &&& texts_view(refused.texts@) == created_texts(
                                final(self).names(),
                                g1,
                                refused.created@,
                            )
                            &&& final(self)@ == g1
                            &&& final(self).counters() == old(self).counters()
                            &&& final(self).staged_set() == old(self).staged_set()
                            &&& final(self).staged_new().len() == 0
                            &&& match e {
                                RxError::BadReference(x) => if g1.contains_key(node@.sym) {
                                    dangling(
                                        g1,
                                        staged_map(old(self).staged_set()),
                                        true,
                                        node@.sym,
                                        Seq::empty(),
                                        x,
                                    )
                                } else {
                                    x == node@.sym
                                },
                                RxError::UnsupportedOperation => g1.contains_key(node@.sym)
                                    && commit_lacks_room(
                                    g1,
                                    old(self).counters(),
                                    old(self).staged_set(),
                                    node@.sym,
                                ),
                                RxError::CycleViolation => g1.contains_key(node@.sym)
                                    && commit_cyclic(
                                    g1,
                                    old(self).counters(),
                                    old(self).staged_set(),
                                    node@.sym,
                                ),
                                RxError::BackendRejection => false,
                            }
                        }
                    }
                },
            },
    {
        let root: Sym = node.sym;
        let staged_set_nodes = self.staged_set_map.keys();
        let staged_new_nodes = self.staged_new_map.keys();
        let ghost m = self.graph@;
        let ghost staged = self.staged_set_map@;
        let ghost pending = self.staged_new_map@;
        let ghost g1 = registered_all(m, pending);
        let ghost names0 = self.graph.names();
        let created = match self.commit_new() {
            Ok(created) => created,
            Err(e) => {
                // the nodes that were registered before the refusal
                let left: usize = self.staged_new_map.len();
                let ghost at = choose|i: int| #[trigger]
                    stuck_at(m, pending, i, e) && self.graph@ == registered_all(m, pending.take(i))
                        && self.staged_new_map@ == pending.skip(i) && forall|t: int|
                        0 <= t < i ==> self.graph@.contains_key(#[trigger] staged_keys(pending)[t]);
                let done: usize = staged_new_nodes.len() - left;
                let mut created: Vec<Sym> = Vec::new();
                let mut t: usize = 0;
                while t < done
                    invariant
                        staged_new_nodes@ == staged_keys(pending),
                        0 <= at < pending.len(),
                        done == at,
                        t <= done,
                        created@ == staged_new_nodes@.take(t as int),
                    decreases done - t,
                {
                    created.push(staged_new_nodes[t]);
                    t += 1;
                    proof {
                        assert(staged_new_nodes@.take(t as int) =~= staged_new_nodes@.take(
                            t - 1,
                        ).push(staged_new_nodes@[t - 1]));
                    }
                }
                let texts = self.texts_of(&created);
                return Err(Refused { error: e, created, texts });
            },
        };
        // the assertion of each new node
        let mut texts: Vec<String> = self.texts_of(&created);
        let (taken, batch) = match self.commit_staged(root) {
            Ok(done) => done,
            Err(e) => {
                return Err(Refused { error: e, created, texts });
            },
        };
        if batch.news.len() > 0 {
            let ghost before = texts@;
            texts.push(batch.text.clone());
            proof {
                assert(texts_view(texts@) =~= texts_view(before).push(batch.text@));
            }
        }
        let ghost before = self.history();
        self.checkpoints.push(
            CommitCheckPoint { committed_node_root: root, staged_set_nodes, staged_new_nodes },
        );
        proof {
            assert(self.history() =~= before.push(checkpoint_of(root, staged, pending)));
        }
        Ok(Committed { created, taken, batch, texts })
    }
}

} // verus!
