//! The eager protocol: every change of a node is carried through the
//! working graph at once, and the text of the round is ready for the
//! reasoning engine when the call returns.

use crate::backend::Backend;
use crate::emit::{batch_text, Batch};
use crate::error::RxError;
use crate::graph::{
    graph_wf, is_latest, latest, lemma_latest_props, record_ok, registered, resolver, Graph,
    WorkingGraph,
};
use crate::node::{
    children, field_children, fields_view, lemma_children_relink, names_view, node_text, Field,
    Node, NodeView, WorkAreaNodeView,
};
use crate::laws::{law_ancestor_completeness, law_ancestors_over_child_edges, leads_down};
use crate::reach::{lemma_reached_is_latest, reachable};
use crate::shape::{lemma_empty_tidy, lemma_registered_tidy, lemma_round_tidy, tidy};
use crate::sorts::{collect_string_type_defs, type_defs_text, FuncSort, TySort};
use crate::staged::{staged_map, StagedNodes};
use crate::sym::Sym;
use crate::symset::SymSet;
use crate::topo::{children_first, count_in, degree_in_subgraph, TopoDirection};
use crate::version::{
    advanced, lemma_index_of, lemma_minted_once, lemma_minted_versionable, minted, renamed,
    room_for, versionable, versioned,
};
use vstd::pervasive::unreached;
use vstd::prelude::*;

verus! {

/// The nodes that a change of the current node `t` gives new versions:
/// `t` and its current ancestors, each once.
pub open spec fn affected_order(m: Graph, t: Sym, olds: Seq<Sym>) -> bool {
    &&& olds.no_duplicates()
    &&& forall|x: Sym|
        olds.contains(x) <==> (x == t || reachable(m, Map::empty(), false, t, Seq::empty(), x))
}

/// Whether a changed node can be taken in: its symbol and the symbols of
/// its children have records.
pub open spec fn payload_ok(m: Graph, payload: NodeView) -> bool {
    &&& m.contains_key(payload.sym)
    &&& forall|i: int| 0 <= i < payload.succs().len() ==> m.contains_key(#[trigger] payload.succs()[i])
}

/// One eager round: the current version of the changed node and its current
/// ancestors (`olds`) get the new versions `news`; the new version of the
/// changed node takes the changed payload.
pub open spec fn eager_step(
    m: Graph,
    counters: Seq<u32>,
    payload: NodeView,
    olds: Seq<Sym>,
    news: Seq<Sym>,
    m2: Graph,
    counters2: Seq<u32>,
) -> bool {
    let t = latest(m, payload.sym);
    &&& payload_ok(m, payload)
    &&& affected_order(m, t, olds)
    &&& room_for(counters, olds)
    &&& minted(counters, olds, news)
    &&& versionable(m, olds, news, Map::empty().insert(t, payload))
    &&& m2 == versioned(m, olds, news, Map::empty().insert(t, payload), false)
    &&& counters2 == advanced(counters, olds)
}

/// Whether the new versions can be sent: the new version of the changed
/// node has no child among them, and they can be put in an order in which
/// every child comes before its parents.
pub open spec fn sendable(m2: Graph, news: Seq<Sym>, target: Sym) -> bool {
    &&& count_in(m2[target].succs(), news.to_set()) == 0
    &&& exists|o: Seq<Sym>| children_first(m2, news, o)
}

/// Whether some counter cannot mint what an eager round for the changed
/// node needs.
pub open spec fn eager_lacks_room(m: Graph, counters: Seq<u32>, payload: NodeView) -> bool {
    exists|olds: Seq<Sym>| #[trigger]
        affected_order(m, latest(m, payload.sym), olds) && !room_for(counters, olds)
}

/// The graph that an eager round for the changed node leads to.
pub open spec fn eager_outcome(m: Graph, payload: NodeView, olds: Seq<Sym>, news: Seq<Sym>) -> Graph {
    versioned(m, olds, news, Map::empty().insert(latest(m, payload.sym), payload), false)
}

/// Whether an eager round for the changed node would leave new versions
/// that cannot be sent.
pub open spec fn eager_cyclic(m: Graph, counters: Seq<u32>, payload: NodeView) -> bool {
    exists|olds: Seq<Sym>, news: Seq<Sym>| #[trigger]
        eager_step(
            m,
            counters,
            payload,
            olds,
            news,
            eager_outcome(m, payload, olds, news),
            advanced(counters, olds),
        ) && !sendable(
            eager_outcome(m, payload, olds, news),
            news,
            renamed(olds, news, latest(m, payload.sym)),
        )
}

/// The engine of the eager protocol: the working graph and the record of
/// what the reasoning engine was handed.
pub struct RxNoVT {
    egraph: Backend,
    graph: WorkingGraph,
}

impl View for RxNoVT {
    type V = Graph;

    closed spec fn view(&self) -> Graph {
        self.graph@
    }
}

impl RxNoVT {
    /// The value of each type's counter.
    pub closed spec fn counters(&self) -> Seq<u32> {
        self.graph.counters()
    }

    /// The lower-case name of each type.
    pub closed spec fn names(&self) -> Seq<Seq<char>> {
        self.graph.names()
    }

    /// The invariant of the engine: that of the working graph, and that
    /// the graph is tidy.
    pub closed spec fn wf(&self) -> bool {
        self.graph.wf() && tidy(self.graph@)
    }

    /// The texts that were reported as handed to the reasoning engine,
    /// oldest first, each with the answer that was reported: `true` where
    /// the engine accepted the text.
    pub closed spec fn sent(&self) -> Seq<(Seq<char>, bool)> {
        self.egraph.sent()
    }

    /// What `wf` says of the graph and the counters.
    pub proof fn lemma_wf(&self)
        requires
            self.wf(),
        ensures
            graph_wf(self@, self.counters()),
            self.names().len() == self.counters().len(),
            tidy(self@),
    {
    }

    /// An engine for the schema with the given declarations and lower-case
    /// type names. The declarations were handed to the reasoning engine,
    /// which gave `answer`: there is an engine where it accepted them.
    pub fn new_with_type_defs(
        type_defs: String,
        names: Vec<String>,
        answer: Result<Vec<String>, egglog::Error>,
    ) -> (r: Result<RxNoVT, RxError>)
        ensures
            match r {
                Ok(rx) => {
                    &&& answer is Ok
                    &&& rx.wf()
                    &&& rx@ == Map::<Sym, WorkAreaNodeView>::empty()
                    &&& rx.names() == names_view(names@)
                    &&& rx.counters() == Seq::new(names@.len(), |i: int| 0u32)
                    &&& rx.sent() == seq![(type_defs@, true)]
                },
                Err(e) => answer is Err && e == RxError::BackendRejection,
            },
    {
        proof {
            lemma_empty_tidy();
        }
        let mut egraph = Backend::new();
        match egraph.interpret(type_defs.as_str(), answer) {
            Ok(_) => Ok(RxNoVT { egraph, graph: WorkingGraph::new(names) }),
            Err(e) => Err(e),
        }
    }

    /// An engine for the schema with the given sorts and functions, whose
    /// declarations are written as [`collect_string_type_defs`] writes them.
    /// These were handed to the reasoning engine, which gave `answer`.
    pub fn new(
        sorts: &Vec<TySort>,
        funcs: &Vec<FuncSort>,
        names: Vec<String>,
        answer: Result<Vec<String>, egglog::Error>,
    ) -> (r: Result<RxNoVT, RxError>)
        ensures
            match r {
                Ok(rx) => {
                    &&& answer is Ok
                    &&& rx.wf()
                    &&& rx@ == Map::<Sym, WorkAreaNodeView>::empty()
                    &&& rx.names() == names_view(names@)
                    &&& rx.counters() == Seq::new(names@.len(), |i: int| 0u32)
                    &&& rx.sent() == seq![(type_defs_text(sorts@, funcs@), true)]
                },
                Err(e) => answer is Err && e == RxError::BackendRejection,
            },
    {
        RxNoVT::new_with_type_defs(collect_string_type_defs(sorts, funcs), names, answer)
    }

    /// Takes note that the text `s` was handed to the reasoning engine and
    /// that the engine gave `answer`. Succeeds where the engine accepted the
    /// text. The working graph stays as it is.
    pub fn interpret(&mut self, s: String, answer: Result<Vec<String>, egglog::Error>) -> (r:
        Result<(), RxError>)
        ensures
            final(self).sent() == old(self).sent().push((s@, answer is Ok)),
            final(self)@ == old(self)@,
            final(self).counters() == old(self).counters(),
            final(self).names() == old(self).names(),
            final(self).wf() == old(self).wf(),
            answer is Ok ==> r == Ok::<(), RxError>(()),
            answer is Err ==> r == Err::<(), RxError>(RxError::BackendRejection),
    {
        self.egraph.interpret(s.as_str(), answer)
    }

    /// Takes note that the text of a round was handed to the reasoning
    /// engine and that the engine gave `answer`. Succeeds where the engine
    /// accepted the text. The working graph stays as it is.
    pub fn receive(&mut self, received: String, answer: Result<Vec<String>, egglog::Error>) -> (r:
        Result<(), RxError>)
        ensures
            final(self).sent() == old(self).sent().push((received@, answer is Ok)),
            final(self)@ == old(self)@,
            final(self).counters() == old(self).counters(),
            final(self).names() == old(self).names(),
            final(self).wf() == old(self).wf(),
            answer is Ok ==> r == Ok::<(), RxError>(()),
            answer is Err ==> r == Err::<(), RxError>(RxError::BackendRejection),
    {
        self.interpret(received, answer)
    }

    /// The working graph.
    pub fn graph(&self) -> (g: &WorkingGraph)
        ensures
            g@ == self@,
            g.counters() == self.counters(),
            g.names() == self.names(),
            self.wf() ==> g.wf(),
    {
        &self.graph
    }

    /// Adds to `index_set` the current ancestors of `cur_sym`, without
    /// `cur_sym` itself. Begun with an empty set, the search ends with the
    /// nodes from which a path along the child edges leads down to
    /// `cur_sym`.
    pub fn collect_latest_ancestors(&self, cur_sym: Sym, index_set: &mut SymSet) -> (r: Result<
        (),
        RxError,
    >)
        requires
            self.wf(),
            old(index_set).wf(),
        ensures
            final(index_set).wf(),
            old(index_set)@.len() <= final(index_set)@.len(),
            final(index_set)@.take(old(index_set)@.len() as int) == old(index_set)@,
            match r {
                Ok(_) => {
                    &&& self@.contains_key(cur_sym)
                    &&& forall|x: Sym|
                        final(index_set)@.contains(x) <==> (old(index_set)@.contains(x)
                            || reachable(
                            self@,
                            Map::empty(),
                            false,
                            cur_sym,
                            old(index_set)@,
                            x,
                        ))
                    &&& old(index_set)@.len() == 0 ==> forall|x: Sym|
                        final(index_set)@.contains(x) <==> #[trigger] leads_down(self@, x, cur_sym)
                },
                Err(e) => {
                    &&& e == RxError::BadReference(cur_sym)
                    &&& !self@.contains_key(cur_sym)
                    &&& final(index_set)@ == old(index_set)@
                },
            },
    {
        let ghost before = index_set@;
        let r = self.graph.collect_latest_ancestors(cur_sym, index_set);
        proof {
            if r is Ok && before.len() == 0 {
                assert(before =~= Seq::<Sym>::empty());
                assert forall|x: Sym|
                    index_set@.contains(x) <==> #[trigger] leads_down(self@, x, cur_sym) by {
                    law_ancestors_over_child_edges(self@, self.counters(), cur_sym, x);
                }
            }
        }
        r
    }

    /// Counts the positions of `nodes` that hold a member of `index_set`.
    pub fn degree_in_subgraph(nodes: &Vec<Sym>, index_set: &SymSet) -> (d: usize)
        ensures
            d == count_in(nodes@, index_set@.to_set()),
    {
        degree_in_subgraph(nodes, index_set)
    }

    /// The current version of the node that `sym` is a version of. A symbol
    /// without record is a bad reference.
    pub fn map_latest(&self, sym: Sym) -> (r: Result<Sym, RxError>)
        requires
            self.wf(),
        ensures
            match r {
                Ok(l) => self@.contains_key(sym) && l == latest(self@, sym),
                Err(e) => !self@.contains_key(sym) && e == RxError::BadReference(sym),
            },
    {
        self.graph.locate_latest(sym)
    }

    /// Puts the members of `index_set` in an order in which every child
    /// comes before its parents. Each of `starts` is a member that is
    /// expected to come first: one that has a child among the members is
    /// taken as a cycle.
    pub fn topo_sort(&self, starts: &SymSet, index_set: &SymSet) -> (r: Result<Vec<Sym>, RxError>)
        requires
            self.wf(),
            starts.wf(),
            index_set.wf(),
            forall|i: int| 0 <= i < starts@.len() ==> index_set@.contains(#[trigger] starts@[i]),
        ensures
            match r {
                Ok(order) => {
                    &&& forall|i: int|
                        0 <= i < index_set@.len() ==> self@.contains_key(#[trigger] index_set@[i])
                    &&& forall|i: int|
                        0 <= i < starts@.len() ==> count_in(
                            self@[#[trigger] starts@[i]].succs(),
                            index_set@.to_set(),
                        ) == 0
                    &&& children_first(self@, index_set@, order@)
                },
                Err(RxError::BadReference(s)) => index_set@.contains(s) && !self@.contains_key(s),
                Err(RxError::CycleViolation) => {
                    &&& forall|i: int|
                        0 <= i < index_set@.len() ==> self@.contains_key(#[trigger] index_set@[i])
                    &&& (exists|i: int|
                        0 <= i < starts@.len() && count_in(
                            self@[#[trigger] starts@[i]].succs(),
                            index_set@.to_set(),
                        ) != 0) || (forall|o: Seq<Sym>| !children_first(self@, index_set@, o))
                },
                Err(_) => false,
            },
    {
        let order = match self.graph.topo_sort(index_set, TopoDirection::Up) {
            Ok(order) => order,
            Err(RxError::CycleViolation) => {
                return Err(RxError::CycleViolation);
            },
            Err(e) => {
                return Err(e);
            },
        };
        let n: usize = starts.len();
        let mut i: usize = 0;
        while i < n
            invariant
                self.wf(),
                n == starts@.len(),
                i <= n,
                forall|j: int| 0 <= j < starts@.len() ==> index_set@.contains(#[trigger] starts@[j]),
                forall|j: int|
                    0 <= j < index_set@.len() ==> self@.contains_key(#[trigger] index_set@[j]),
                forall|j: int|
                    0 <= j < i ==> count_in(
                        self@[#[trigger] starts@[j]].succs(),
                        index_set@.to_set(),
                    ) == 0,
            decreases n - i,
        {
            let s: Sym = match starts.get_index(i) {
                Some(s) => s,
                None => unreached(),
            };
            proof {
                assert(index_set@.contains(starts@[i as int]));
                let at = choose|at: int| 0 <= at < index_set@.len() && index_set@[at] == s;
                assert(self@.contains_key(index_set@[at]));
            }
            let succs = match self.graph.get(s) {
                Some(w) => w.succs(),
                None => unreached(),
            };
            if degree_in_subgraph(&succs, index_set) != 0 {
                return Err(RxError::CycleViolation);
            }
            i += 1;
        }
        Ok(order)
    }

    /// Prepares a node of schema type `ty`: mints its symbol and writes its
    /// assertion. The node is registered by [`RxNoVT::add_node`], once the
    /// assertion was handed to the reasoning engine.
    ///
    /// Refused as unsupported where the schema has no type `ty` or the
    /// type's counter is at the end of its range; as a bad reference where a
    /// child has no record. In both cases nothing changes.
    pub fn on_new(&mut self, ty: u32, variant: String, fields: Vec<Field>) -> (r: Result<
        (Node, String),
        RxError,
    >)
        requires
            old(self).wf(),
        ensures
            final(self).wf(),
            final(self).names() == old(self).names(),
            final(self)@ == old(self)@,
            final(self).sent() == old(self).sent(),
            match r {
                Ok(made) => {
                    &&& old(self).graph_has_room(ty)
                    &&& made.0@ == (NodeView {
                        sym: Sym { ty, serial: old(self).counters()[ty as int] },
                        variant: variant@,
                        fields: fields_view(fields@),
                    })
                    &&& forall|i: int|
                        0 <= i < made.0@.succs().len() ==> old(self)@.contains_key(
                            #[trigger] made.0@.succs()[i],
                        )
                    &&& made.1@ == node_text(old(self).names(), made.0@)
                    &&& final(self).counters() == old(self).counters().update(
                        ty as int,
                        (old(self).counters()[ty as int] + 1) as u32,
                    )
                },
                Err(RxError::UnsupportedOperation) => {
                    &&& !old(self).graph_has_room(ty)
                    &&& final(self).counters() == old(self).counters()
                },
                Err(RxError::BadReference(x)) => {
                    &&& old(self).graph_has_room(ty)
                    &&& children(fields_view(fields@)).contains(x)
                    &&& !old(self)@.contains_key(x)
                    &&& final(self).counters() == old(self).counters()
                },
                Err(_) => false,
            },
    {
        match self.graph.counter(ty) {
            Some(c) => {
                if c == u32::MAX {
                    return Err(RxError::UnsupportedOperation);
                }
            },
            None => {
                return Err(RxError::UnsupportedOperation);
            },
        }
        // every child must have a record
        let ghost kids = children(fields_view(fields@));
        let succs = field_children(&fields);
        let mut i: usize = 0;
        while i < succs.len()
            invariant
                i <= succs@.len(),
                self.wf(),
                self@ == old(self)@,
                self.counters() == old(self).counters(),
                self.names() == old(self).names(),
                self.sent() == old(self).sent(),
                old(self).graph_has_room(ty),
                succs@ == kids,
                kids == children(fields_view(fields@)),
                forall|j: int| 0 <= j < i ==> self@.contains_key(#[trigger] succs@[j]),
            decreases succs.len() - i,
        {
            if !self.graph.contains(succs[i]) {
                assert(kids[i as int] == succs@[i as int]);
                return Err(RxError::BadReference(succs[i]));
            }
            i += 1;
        }
        let sym = self.graph.mint(ty);
        let node = Node::new(sym, variant, fields);
        proof {
            assert forall|j: int| 0 <= j < node@.succs().len() implies ((
            #[trigger] node@.succs()[j]).ty as nat) < self.counters().len() by {
                assert(self@.contains_key(succs@[j]));
                assert(record_ok(self@, self.counters(), succs@[j]));
            }
        }
        let text = node.to_egglog(self.graph.type_names());
        Ok((node, text))
    }

    /// Takes in a node whose symbol was minted and has no record yet, after
    /// its assertion was handed to the reasoning engine, which gave
    /// `answer`: registers the node, with its children resolved to their
    /// current versions, where the engine accepted the assertion.
    ///
    /// Refused as rejected where the engine rejected the assertion, and as
    /// a bad reference where it accepted the assertion and a child has no
    /// record. In both cases nothing is registered.
    pub fn add_node(&mut self, node: &Node, answer: Result<Vec<String>, egglog::Error>) -> (r:
        Result<(), RxError>)
        requires
            old(self).wf(),
            (node@.sym.ty as int) < old(self).counters().len(),
            node@.sym.serial < old(self).counters()[node@.sym.ty as int],
            !old(self)@.contains_key(node@.sym),
        ensures
            final(self).wf(),
            final(self).names() == old(self).names(),
            final(self).counters() == old(self).counters(),
            final(self).sent() == old(self).sent().push(
                (node_text(old(self).names(), node@), answer is Ok),
            ),
            match r {
                Ok(_) => {
                    &&& answer is Ok
                    &&& forall|i: int|
                        0 <= i < node@.succs().len() ==> old(self)@.contains_key(
                            #[trigger] node@.succs()[i],
                        )
                    &&& final(self)@ == registered(old(self)@, node@, true)
                },
                Err(RxError::BackendRejection) => answer is Err && final(self)@ == old(self)@,
                Err(RxError::BadReference(x)) => {
                    &&& answer is Ok
                    &&& node@.succs().contains(x)
                    &&& !old(self)@.contains_key(x)
                    &&& final(self)@ == old(self)@
                },
                Err(_) => false,
            },
    {
        let ghost text = node_text(self.graph.names(), node@);
        match self.egraph.record(Ghost(text), answer) {
            Ok(_) => {},
            Err(e) => {
                return Err(e);
            },
        }
        let ghost m = self.graph@;
        match self.graph.register(node, true) {
            Ok(_) => {
                proof {
                    let f = resolver(m, true);
                    lemma_children_relink(node@.fields, f);
                    assert forall|i: int|
                        0 <= i < node@.relinked(f).succs().len() implies m.contains_key(
                        #[trigger] node@.relinked(f).succs()[i],
                    ) by {
                        assert(m.contains_key(node@.succs()[i]));
                        lemma_latest_props(m, self.graph.counters(), node@.succs()[i]);
                    }
                    lemma_registered_tidy(m, self.graph.counters(), node@, true);
                }
                Ok(())
            },
            Err(e) => {
                proof {
                    let i = choose|i: int|
                        0 <= i < node@.succs().len() && e == RxError::BadReference(
                            #[trigger] node@.succs()[i],
                        ) && !old(self)@.contains_key(node@.succs()[i]);
                    assert(node@.succs().contains(node@.succs()[i]));
                }
                Err(e)
            },
        }
    }

    /// Whether the schema has a type `ty` whose counter can mint one more
    /// symbol.
    pub open spec fn graph_has_room(&self, ty: u32) -> bool {
        (ty as int) < self.counters().len() && self.counters()[ty as int] < u32::MAX
    }

    /// Carries a change of a node through the working graph: the current
    /// version of the node and its current ancestors get new versions, of
    /// which the node's takes the changed payload, and `node` gets the new
    /// symbol. Afterwards no current node names a node that got a new
    /// version. Returns the round with the text to send.
    ///
    /// Refused as a bad reference where the node or one of its children has
    /// no record, as unsupported where a counter cannot mint what the round
    /// needs, and as a cycle where the new versions could not be sent. A
    /// refusal comes before anything is written: nothing changes.
    pub fn update_symnode(&mut self, node: &mut Node) -> (r: Result<Batch, RxError>)
        requires
            old(self).wf(),
        ensures
            final(self).wf(),
            final(self).names() == old(self).names(),
            final(self).sent() == old(self).sent(),
            final(node)@.variant == old(node)@.variant,
            final(node)@.fields == old(node)@.fields,
            match r {
                Ok(b) => {
                    &&& eager_step(
                        old(self)@,
                        old(self).counters(),
                        old(node)@,
                        b.olds@,
                        b.news@,
                        final(self)@,
                        final(self).counters(),
                    )
                    &&& final(node)@.sym == renamed(
                        b.olds@,
                        b.news@,
                        latest(old(self)@, old(node)@.sym),
                    )
                    &&& count_in(final(self)@[final(node)@.sym].succs(), b.news@.to_set()) == 0
                    &&& children_first(final(self)@, b.news@, b.order@)
                    &&& b.text@ == batch_text(final(self).names(), final(self)@, b.order@)
                    &&& forall|k: Sym, a: Sym|
                        is_latest(final(self)@, k) && b.olds@.contains(a) ==> !(
                        #[trigger] final(self)@[k].succs().contains(a))
                },
                Err(RxError::BadReference(x)) => {
                    &&& final(self)@ == old(self)@
                    &&& final(self).counters() == old(self).counters()
                    &&& final(node)@ == old(node)@
                    &&& !old(self)@.contains_key(x)
                    &&& x == old(node)@.sym || (old(self)@.contains_key(old(node)@.sym) && old(
                        node,
                    )@.succs().contains(x))
                },
                Err(RxError::UnsupportedOperation) => {
                    &&& final(self)@ == old(self)@
                    &&& final(self).counters() == old(self).counters()
                    &&& final(node)@ == old(node)@
                    &&& payload_ok(old(self)@, old(node)@)
                    &&& eager_lacks_room(old(self)@, old(self).counters(), old(node)@)
                },
                Err(RxError::CycleViolation) => {
                    &&& final(self)@ == old(self)@
                    &&& final(self).counters() == old(self).counters()
                    &&& final(node)@ == old(node)@
                    &&& eager_cyclic(old(self)@, old(self).counters(), old(node)@)
                },
                Err(RxError::BackendRejection) => false,
            },
    {
        let ghost m = self@;
        let ghost c0 = self.counters();
        let ghost payload = node@;
        let s: Sym = node.sym;
        if !self.graph.contains(s) {
            return Err(RxError::BadReference(s));
        }
        let succs = node.succs();
        let mut i: usize = 0;
        while i < succs.len()
            invariant
                i <= succs@.len(),
                self.wf(),
                self@ == m,
                m == old(self)@,
                self.counters() == c0,
                c0 == old(self).counters(),
                self.names() == old(self).names(),
                self.sent() == old(self).sent(),
                node@ == payload,
                payload == old(node)@,
                m.contains_key(payload.sym),
                succs@ == payload.succs(),
                forall|j: int| 0 <= j < i ==> m.contains_key(#[trigger] succs@[j]),
            decreases succs.len() - i,
        {
            if !self.graph.contains(succs[i]) {
                assert(payload.succs()[i as int] == succs@[i as int]);
                return Err(RxError::BadReference(succs[i]));
            }
            i += 1;
        }
        assert(payload_ok(m, payload));
        let t: Sym = self.graph.latest(s);
        proof {
            lemma_latest_props(m, c0, s);
        }
        let mut olds = SymSet::new();
        match self.graph.collect_latest_ancestors(t, &mut olds) {
            Ok(_) => {},
            Err(e) => {
                proof {
                    assert(false);
                }
                return Err(e);
            },
        }
        let ghost ancestors = olds@;
        olds.insert(t);
        proof {
            assert forall|x: Sym| olds@.contains(x) <==> (x == t || reachable(
                m,
                Map::empty(),
                false,
                t,
                Seq::empty(),
                x,
            )) by {
                if olds@.contains(x) {
                    let j = choose|j: int| 0 <= j < olds@.len() && olds@[j] == x;
                    if j < ancestors.len() {
                        assert(ancestors[j] == x);
                    }
                }
                if ancestors.contains(x) {
                    let j = choose|j: int| 0 <= j < ancestors.len() && ancestors[j] == x;
                    assert(olds@[j] == x);
                }
                if x == t && !ancestors.contains(t) {
                    assert(olds@[ancestors.len() as int] == t);
                }
            }
            assert(affected_order(m, t, olds@));
            assert forall|j: int| 0 <= j < olds@.len() implies is_latest(m, #[trigger] olds@[j]) by {
                let x = olds@[j];
                assert(olds@.contains(x));
                if x != t {
                    lemma_reached_is_latest(m, Map::empty(), false, t, Seq::empty(), x);
                }
            }
        }
        if !self.graph.has_room_for(&olds) {
            return Err(RxError::UnsupportedOperation);
        }
        let mut repl = StagedNodes::new();
        repl.insert(t, node.duplicate());
        proof {
            assert(staged_map(repl@) =~= Map::<Sym, NodeView>::empty().insert(t, payload));
            assert(staged_map(repl@).contains_key(t));
            assert forall|a: int, b: int|
                0 <= a < olds@.len() && staged_map(repl@).contains_key(#[trigger] olds@[a]) && 0
                    <= b < staged_map(repl@)[olds@[a]].succs().len() implies m.contains_key(
                #[trigger] staged_map(repl@)[olds@[a]].succs()[b],
            ) by {
                assert(olds@[a] == t);
            }
        }
        let ghost rp = staged_map(repl@);
        let at: usize = match olds.get_index_of(t) {
            Some(at) => at,
            None => unreached(),
        };
        // the changed node may name none of the nodes that get new versions
        let planned = self.graph.plan_news(&olds);
        proof {
            lemma_index_of(olds@, at as int);
            lemma_minted_versionable(m, c0, olds@, planned@, rp);
            lemma_index_of(planned@, at as int);
        }
        let first = self.graph.successor_of(&olds, &planned, &repl, false, at);
        let members = SymSet::from_distinct(&planned);
        if degree_in_subgraph(&first.succs(), &members) != 0 {
            proof {
                let m2 = eager_outcome(m, payload, olds@, planned@);
                assert(m2[planned@[at as int]].succs() == first@.succs());
                assert(eager_step(m, c0, payload, olds@, planned@, m2, advanced(c0, olds@)));
                assert(!sendable(m2, planned@, renamed(olds@, planned@, t)));
            }
            return Err(RxError::CycleViolation);
        }
        let (news, order) = match self.graph.version_up(&olds, &repl, false) {
            Ok(made) => made,
            Err(_) => {
                proof {
                    let news = choose|news: Seq<Sym>| #[trigger]
                        minted(c0, olds@, news) && forall|o: Seq<Sym>|
                            !children_first(versioned(m, olds@, news, rp, false), news, o);
                    lemma_minted_versionable(m, c0, olds@, news, rp);
                    let m2 = eager_outcome(m, payload, olds@, news);
                    assert(eager_step(m, c0, payload, olds@, news, m2, advanced(c0, olds@)));
                    assert(!sendable(m2, news, renamed(olds@, news, t)));
                }
                return Err(RxError::CycleViolation);
            },
        };
        let target: Sym = news[at];
        node.sym = target;
        proof {
            lemma_minted_once(c0, olds@, news@, planned@);
            assert(target == renamed(olds@, news@, t));
            assert(eager_step(m, c0, payload, olds@, news@, self@, self.counters()));
            assert(news@.contains(news@[at as int]));
            assert(self@[target].succs() == first@.succs());
            lemma_round_tidy(m, c0, payload, olds@, news@, self@, self.counters());
            law_ancestor_completeness(m, c0, payload, olds@, news@, self@, self.counters());
            assert forall|j: int| 0 <= j < order@.len() implies self@.contains_key(
                #[trigger] order@[j],
            ) by {
                assert(order@.contains(order@[j]));
                assert(news@.contains(order@[j]));
            }
        }
        let text = self.graph.render_all(&order);
        Ok(Batch { olds: olds.to_vec(), news, order, text })
    }

    /// Carries a change of a node through the working graph, as
    /// [`RxNoVT::update_symnode`] does, and returns the round with the text to
    /// hand to the reasoning engine.
    pub fn on_set(&mut self, node: &mut Node) -> (r: Result<Batch, RxError>)
        requires
            old(self).wf(),
        ensures
            final(self).wf(),
            final(self).names() == old(self).names(),
            final(self).sent() == old(self).sent(),
            final(node)@.variant == old(node)@.variant,
            final(node)@.fields == old(node)@.fields,
            match r {
                Ok(b) => {
                    &&& eager_step(
                        old(self)@,
                        old(self).counters(),
                        old(node)@,
                        b.olds@,
                        b.news@,
                        final(self)@,
                        final(self).counters(),
                    )
                    &&& final(node)@.sym == renamed(
                        b.olds@,
                        b.news@,
                        latest(old(self)@, old(node)@.sym),
                    )
                    &&& count_in(final(self)@[final(node)@.sym].succs(), b.news@.to_set()) == 0
                    &&& children_first(final(self)@, b.news@, b.order@)
                    &&& b.text@ == batch_text(final(self).names(), final(self)@, b.order@)
                    &&& forall|k: Sym, a: Sym|
                        is_latest(final(self)@, k) && b.olds@.contains(a) ==> !(
                        #[trigger] final(self)@[k].succs().contains(a))
                },
                Err(RxError::BadReference(x)) => {
                    &&& final(self)@ == old(self)@
                    &&& final(self).counters() == old(self).counters()
                    &&& final(node)@ == old(node)@
                    &&& !old(self)@.contains_key(x)
                    &&& x == old(node)@.sym || (old(self)@.contains_key(old(node)@.sym) && old(
                        node,
                    )@.succs().contains(x))
                },
                Err(RxError::UnsupportedOperation) => {
                    &&& final(self)@ == old(self)@
                    &&& final(self).counters() == old(self).counters()
                    &&& final(node)@ == old(node)@
                    &&& payload_ok(old(self)@, old(node)@)
                    &&& eager_lacks_room(old(self)@, old(self).counters(), old(node)@)
                },
                Err(RxError::CycleViolation) => {
                    &&& final(self)@ == old(self)@
                    &&& final(self).counters() == old(self).counters()
                    &&& final(node)@ == old(node)@
                    &&& eager_cyclic(old(self)@, old(self).counters(), old(node)@)
                },
                Err(RxError::BackendRejection) => false,
            },
    {
        self.update_symnode(node)
    }
}

} // verus!
