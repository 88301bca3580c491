//! Searches over the working graph: the current ancestors of a node along
//! the reverse edges, and its current descendants along the child edges.

use crate::error::RxError;
use crate::graph::{graph_wf, is_latest, Graph, WorkingGraph};
use crate::node::NodeView;
use crate::staged::{staged_map, StagedNodes};
use crate::sym::Sym;
use crate::symset::SymSet;
use vstd::prelude::*;

verus! {

/// The symbols one step away from `x`: forward its children, taken from
/// the node staged under `x` where there is one, backward its reverse edges.
pub open spec fn edges(m: Graph, overlay: Map<Sym, NodeView>, forward: bool, x: Sym) -> Seq<Sym> {
    if forward {
        if overlay.contains_key(x) {
            overlay[x].succs()
        } else {
            m[x].succs()
        }
    } else {
        m[x].preds
    }
}

/// One step of a search: from a recorded node along an edge to a node that
/// has a record and no newer version.
pub open spec fn step(m: Graph, overlay: Map<Sym, NodeView>, forward: bool, x: Sym, y: Sym) -> bool {
    &&& m.contains_key(x)
    &&& edges(m, overlay, forward, x).contains(y)
    &&& is_latest(m, y)
}

/// A walk from `start`: at least one step, every step taken as [`step`]
/// says, and no node on it (the start aside) among `avoid`.
pub open spec fn is_walk(
    m: Graph,
    overlay: Map<Sym, NodeView>,
    forward: bool,
    start: Sym,
    avoid: Seq<Sym>,
    walk: Seq<Sym>,
) -> bool {
    &&& walk.len() >= 1
    &&& step(m, overlay, forward, start, walk[0])
    &&& forall|i: int|
        0 <= i < walk.len() - 1 ==> step(m, overlay, forward, #[trigger] walk[i], walk[i + 1])
    &&& forall|i: int| 0 <= i < walk.len() ==> !avoid.contains(#[trigger] walk[i])
}

/// Whether a walk leads from `start` to `x`.
pub open spec fn reachable(
    m: Graph,
    overlay: Map<Sym, NodeView>,
    forward: bool,
    start: Sym,
    avoid: Seq<Sym>,
    x: Sym,
) -> bool {
    exists|walk: Seq<Sym>| #[trigger]
        is_walk(m, overlay, forward, start, avoid, walk) && walk.last() == x
}

/// Whether the search from `start` meets `y` and finds no record of it.
pub open spec fn dangling(
    m: Graph,
    overlay: Map<Sym, NodeView>,
    forward: bool,
    start: Sym,
    avoid: Seq<Sym>,
    y: Sym,
) -> bool {
    &&& !m.contains_key(y)
    &&& !avoid.contains(y)
    &&& exists|x: Sym|
        (x == start || reachable(m, overlay, forward, start, avoid, x)) && #[trigger] edges(
            m,
            overlay,
            forward,
            x,
        ).contains(y)
}

/// A node the search has dealt with: it is in the set, or it has a newer
/// version.
pub open spec fn handled(m: Graph, seen: Seq<Sym>, y: Sym) -> bool {
    seen.contains(y) || (m.contains_key(y) && m[y].next is Some)
}

/// Whether the search is done with `x`: every edge out of it leads to a
/// node it has dealt with.
pub open spec fn closed_at(
    m: Graph,
    overlay: Map<Sym, NodeView>,
    forward: bool,
    seen: Seq<Sym>,
    x: Sym,
) -> bool {
    forall|j: int|
        0 <= j < edges(m, overlay, forward, x).len() ==> handled(
            m,
            seen,
            #[trigger] edges(m, overlay, forward, x)[j],
        )
}

/// The nodes of the search: its start and what it has added to the set.
pub open spec fn in_search(start: Sym, avoid: Seq<Sym>, seen: Seq<Sym>, x: Sym) -> bool {
    x == start || (seen.contains(x) && !avoid.contains(x))
}

/// The number of recorded nodes the set lacks.
pub open spec fn unseen(m: Graph, seen: Seq<Sym>) -> nat {
    m.dom().difference(seen.to_set()).len()
}

/// Adding a recorded node that the set lacked leaves one recorded node
/// less outside it.
pub proof fn lemma_unseen_push(m: Graph, seen: Seq<Sym>, y: Sym)
    requires
        m.dom().finite(),
        m.contains_key(y),
        !seen.contains(y),
    ensures
        unseen(m, seen.push(y)) + 1 == unseen(m, seen),
{
    let before = m.dom().difference(seen.to_set());
    let after = m.dom().difference(seen.push(y).to_set());
    assert(before.contains(y));
    assert(after =~= before.remove(y)) by {
        assert forall|x: Sym| after.contains(x) <==> before.remove(y).contains(x) by {
            if seen.push(y).contains(x) {
                let i = choose|i: int| 0 <= i < seen.push(y).len() && seen.push(y)[i] == x;
                if i < seen.len() {
                    assert(seen[i] == x);
                }
            }
            if seen.contains(x) {
                let i = choose|i: int| 0 <= i < seen.len() && seen[i] == x;
                assert(seen.push(y)[i] == x);
            }
            if x == y {
                assert(seen.push(y)[seen.len() as int] == y);
            }
        }
    }
}

/// When the search is done with its start and with every node it added,
/// the set holds every node a walk leads to.
pub proof fn lemma_closed_complete(
    m: Graph,
    overlay: Map<Sym, NodeView>,
    forward: bool,
    start: Sym,
    avoid: Seq<Sym>,
    seen: Seq<Sym>,
    walk: Seq<Sym>,
)
    requires
        is_walk(m, overlay, forward, start, avoid, walk),
        forall|x: Sym|
            in_search(start, avoid, seen, x) && m.contains_key(x) ==> #[trigger] closed_at(
                m,
                overlay,
                forward,
                seen,
                x,
            ),
    ensures
        seen.contains(walk.last()),
    decreases walk.len(),
{
    let from = if walk.len() == 1 {
        start
    } else {
        walk[walk.len() - 2]
    };
    if walk.len() > 1 {
        let init = walk.drop_last();
        assert(is_walk(m, overlay, forward, start, avoid, init)) by {
            assert(forall|i: int| 0 <= i < init.len() ==> init[i] == walk[i]);
        }
        lemma_closed_complete(m, overlay, forward, start, avoid, seen, init);
        assert(init.last() == from);
        assert(!avoid.contains(walk[walk.len() - 2]));
        assert(step(m, overlay, forward, walk[walk.len() - 2], walk[walk.len() - 2 + 1]));
    }
    assert(step(m, overlay, forward, from, walk.last()));
    assert(in_search(start, avoid, seen, from));
    assert(closed_at(m, overlay, forward, seen, from));
    let es = edges(m, overlay, forward, from);
    let j = choose|j: int| 0 <= j < es.len() && es[j] == walk.last();
    assert(handled(m, seen, es[j]));
}

impl WorkingGraph {
    /// The symbols one step away from a recorded node.
    fn edges_of(&self, x: Sym, forward: bool, overlay: &StagedNodes) -> (es: Vec<Sym>)
        requires
            self@.contains_key(x),
            overlay.wf(),
        ensures
            es@ == edges(self@, staged_map(overlay@), forward, x),
    {
        if forward {
            match overlay.get(x) {
                Some(n) => n.succs(),
                None => match self.get(x) {
                    Some(w) => w.succs(),
                    None => Vec::new(),
                },
            }
        } else {
            match self.get(x) {
                Some(w) => w.preds.to_vec(),
                None => Vec::new(),
            }
        }
    }

    /// Adds to `seen` every node that a walk from `start` leads to: forward
    /// along the child edges (those of the node staged in `overlay`, where
    /// one is staged), or backward along the reverse edges. A walk stops at
    /// nodes that have a newer version and at nodes that `seen` held
    /// already. The start must have a record, and so must every node the
    /// search looks at.
    pub fn reach(
        &self,
        start: Sym,
        seen: &mut SymSet,
        forward: bool,
        overlay: &StagedNodes,
    ) -> (r: Result<(), RxError>)
        requires
            self.wf(),
            old(seen).wf(),
            overlay.wf(),
        ensures
            final(seen).wf(),
            old(seen)@.len() <= final(seen)@.len(),
            final(seen)@.take(old(seen)@.len() as int) == old(seen)@,
            match r {
                Ok(_) => {
                    &&& self@.contains_key(start)
                    &&& forall|x: Sym|
                        final(seen)@.contains(x) <==> (old(seen)@.contains(x) || reachable(
                            self@,
                            staged_map(overlay@),
                            forward,
                            start,
                            old(seen)@,
                            x,
                        ))
                    &&& forall|y: Sym|
                        !dangling(self@, staged_map(overlay@), forward, start, old(seen)@, y)
                    &&& forall|x: Sym|
                        in_search(start, old(seen)@, final(seen)@, x) && self@.contains_key(x)
                            ==> #[trigger] closed_at(
                            self@,
                            staged_map(overlay@),
                            forward,
                            final(seen)@,
                            x,
                        )
                },
                Err(e) => {
                    &&& e matches RxError::BadReference(y)
                    &&& if self@.contains_key(start) {
                        dangling(self@, staged_map(overlay@), forward, start, old(seen)@, y)
                    } else {
                        y == start && final(seen)@ == old(seen)@
                    }
                },
            },
    {
        let ghost m = self@;
        let ghost ov = staged_map(overlay@);
        let ghost avoid = seen@;
        if !self.contains(start) {
            assert(seen@.take(seen@.len() as int) =~= seen@);
            return Err(RxError::BadReference(start));
        }
        let mut stack: Vec<Sym> = Vec::new();
        stack.push(start);
        assert(seen@.take(avoid.len() as int) =~= avoid);
        assert(stack@[0] == start);
        while stack.len() > 0
            invariant
                self.wf(),
                seen.wf(),
                overlay.wf(),
                m == self@,
                ov == staged_map(overlay@),
                avoid == old(seen)@,
                m.contains_key(start),
                avoid.len() <= seen@.len(),
                seen@.take(avoid.len() as int) == avoid,
                forall|i: int|
                    0 <= i < stack@.len() ==> m.contains_key(#[trigger] stack@[i]) && in_search(
                        start,
                        avoid,
                        seen@,
                        stack@[i],
                    ),
                forall|x: Sym|
                    seen@.contains(x) && !avoid.contains(x) ==> #[trigger] reachable(
                        m,
                        ov,
                        forward,
                        start,
                        avoid,
                        x,
                    ),
                forall|x: Sym|
                    in_search(start, avoid, seen@, x) && m.contains_key(x) && !stack@.contains(x)
                        ==> #[trigger] closed_at(m, ov, forward, seen@, x),
            decreases 2 * unseen(m, seen@) + stack@.len(),
        {
            let ghost stack_before = stack@;
            let ghost budget = 2 * unseen(m, seen@) + stack@.len();
            let x: Sym = stack.pop().unwrap();
            proof {
                assert(stack_before[stack_before.len() - 1] == x);
                assert(forall|i: int| 0 <= i < stack@.len() ==> stack@[i] == stack_before[i]);
            }
            let es: Vec<Sym> = self.edges_of(x, forward, overlay);
            let mut j: usize = 0;
            while j < es.len()
                invariant
                    self.wf(),
                    seen.wf(),
                    overlay.wf(),
                    m == self@,
                    ov == staged_map(overlay@),
                    avoid == old(seen)@,
                    m.contains_key(start),
                    avoid.len() <= seen@.len(),
                    seen@.take(avoid.len() as int) == avoid,
                    m.contains_key(x),
                    in_search(start, avoid, seen@, x),
                    es@ == edges(m, ov, forward, x),
                    j <= es@.len(),
                    2 * unseen(m, seen@) + stack@.len() + 1 <= budget,
                    forall|t: int| 0 <= t < j ==> handled(m, seen@, #[trigger] es@[t]),
                    forall|i: int|
                        0 <= i < stack@.len() ==> m.contains_key(#[trigger] stack@[i])
                            && in_search(start, avoid, seen@, stack@[i]),
                    forall|y: Sym|
                        seen@.contains(y) && !avoid.contains(y) ==> #[trigger] reachable(
                            m,
                            ov,
                            forward,
                            start,
                            avoid,
                            y,
                        ),
                    forall|y: Sym|
                        in_search(start, avoid, seen@, y) && m.contains_key(y) && !stack@.contains(
                            y,
                        ) && y != x ==> #[trigger] closed_at(m, ov, forward, seen@, y),
                decreases es@.len() - j,
            {
                let y: Sym = es[j];
                let ghost seen_before = seen@;
                let ghost stack_mid = stack@;
                if !seen.contains(y) {
                    match self.get(y) {
                        None => {
                            proof {
                                assert(!avoid.contains(y)) by {
                                    if avoid.contains(y) {
                                        let i = choose|i: int|
                                            0 <= i < avoid.len() && avoid[i] == y;
                                        assert(seen@.take(avoid.len() as int)[i] == y);
                                        assert(seen@[i] == y);
                                    }
                                }
                                assert(edges(m, ov, forward, x).contains(y)) by {
                                    assert(edges(m, ov, forward, x)[j as int] == y);
                                }
                                assert(dangling(m, ov, forward, start, avoid, y));
                            }
                            return Err(RxError::BadReference(y));
                        },
                        Some(w) => {
                            if w.next.is_none() {
                                seen.insert(y);
                                stack.push(y);
                                proof {
                                    lemma_unseen_push(m, seen_before, y);
                                    lemma_reach_grows(
                                        m,
                                        ov,
                                        forward,
                                        start,
                                        avoid,
                                        seen_before,
                                        x,
                                        y,
                                    );
                                    assert(seen@.take(avoid.len() as int) =~= avoid);
                                    assert(forall|s: Sym|
                                        seen_before.contains(s) ==> seen@.contains(s)) by {
                                        assert forall|s: Sym| seen_before.contains(s) implies seen@.contains(
                                            s,
                                        ) by {
                                            let i = choose|i: int|
                                                0 <= i < seen_before.len() && seen_before[i] == s;
                                            assert(seen@[i] == s);
                                        }
                                    }
                                    assert(seen@[seen_before.len() as int] == y);
                                    assert(seen@.contains(y));
                                    assert forall|s: Sym| seen@.contains(s) implies (
                                    seen_before.contains(s) || s == y) by {
                                        let i = choose|i: int| 0 <= i < seen@.len() && seen@[i] == s;
                                        if i < seen_before.len() {
                                            assert(seen_before[i] == s);
                                        }
                                    }
                                    assert forall|i: int| 0 <= i < stack@.len() implies m.contains_key(
                                        #[trigger] stack@[i],
                                    ) && in_search(start, avoid, seen@, stack@[i]) by {
                                        if i < stack_mid.len() {
                                            assert(stack@[i] == stack_mid[i]);
                                        }
                                    }
                                    assert(stack@[stack_mid.len() as int] == y);
                                    assert(stack@.contains(y));
                                    assert forall|z: Sym|
                                        in_search(start, avoid, seen@, z) && m.contains_key(z)
                                            && !stack@.contains(z) && z != x implies #[trigger] closed_at(
                                        m,
                                        ov,
                                        forward,
                                        seen@,
                                        z,
                                    ) by {
                                        assert(z != y);
                                        assert(in_search(start, avoid, seen_before, z));
                                        assert(!stack_mid.contains(z)) by {
                                            if stack_mid.contains(z) {
                                                let i = choose|i: int|
                                                    0 <= i < stack_mid.len() && stack_mid[i] == z;
                                                assert(stack@[i] == z);
                                            }
                                        }
                                        assert(closed_at(m, ov, forward, seen_before, z));
                                    }
                                }
                            }
                        },
                    }
                }
                j += 1;
            }
            proof {
                assert(closed_at(m, ov, forward, seen@, x));
            }
        }
        proof {
            assert forall|x: Sym|
                in_search(start, avoid, seen@, x) && m.contains_key(x) implies #[trigger] closed_at(
                m,
                ov,
                forward,
                seen@,
                x,
            ) by {
                assert(!stack@.contains(x));
            }
            assert forall|x: Sym| reachable(m, ov, forward, start, avoid, x) implies seen@.contains(
                x,
            ) by {
                let walk = choose|walk: Seq<Sym>| #[trigger]
                    is_walk(m, ov, forward, start, avoid, walk) && walk.last() == x;
                lemma_closed_complete(m, ov, forward, start, avoid, seen@, walk);
            }
            assert forall|x: Sym| avoid.contains(x) implies seen@.contains(x) by {
                let i = choose|i: int| 0 <= i < avoid.len() && avoid[i] == x;
                assert(seen@.take(avoid.len() as int)[i] == x);
                assert(seen@[i] == x);
            }
            assert forall|y: Sym| !dangling(m, ov, forward, start, avoid, y) by {
                if dangling(m, ov, forward, start, avoid, y) {
                    let x = choose|x: Sym|
                        (x == start || reachable(m, ov, forward, start, avoid, x))
                            && #[trigger] edges(m, ov, forward, x).contains(y);
                    if x != start {
                        let walk = choose|walk: Seq<Sym>| #[trigger]
                            is_walk(m, ov, forward, start, avoid, walk) && walk.last() == x;
                        assert(!avoid.contains(walk[walk.len() - 1]));
                        if walk.len() == 1 {
                            assert(is_latest(m, walk[0]));
                        } else {
                            assert(step(m, ov, forward, walk[walk.len() - 2], walk[walk.len() - 2 + 1]));
                        }
                        assert(m.contains_key(x));
                    }
                    assert(in_search(start, avoid, seen@, x));
                    assert(closed_at(m, ov, forward, seen@, x));
                    let es = edges(m, ov, forward, x);
                    let j = choose|j: int| 0 <= j < es.len() && es[j] == y;
                    assert(handled(m, seen@, es[j]));
                    assert(seen@.contains(y));
                    assert(reachable(m, ov, forward, start, avoid, y));
                    let walk = choose|walk: Seq<Sym>| #[trigger]
                        is_walk(m, ov, forward, start, avoid, walk) && walk.last() == y;
                    if walk.len() == 1 {
                        assert(is_latest(m, walk[0]));
                    } else {
                        assert(step(m, ov, forward, walk[walk.len() - 2], walk[walk.len() - 2 + 1]));
                    }
                }
            }
        }
        Ok(())
    }
}

impl WorkingGraph {
    /// Adds to `index_set` the current ancestors of `cur_sym`, without
    /// `cur_sym` itself: every node without newer version that a walk along
    /// the reverse edges leads to, where the walk passes only through such
    /// nodes and through none that `index_set` held already.
    pub fn collect_latest_ancestors(&self, cur_sym: Sym, index_set: &mut SymSet) -> (r: Result<
        (),
        RxError,
    >)
        requires
            self.wf(),
            old(index_set).wf(),
        ensures
            final(index_set).wf(),
            old(index_set)@.len() <= final(index_set)@.len(),
            final(index_set)@.take(old(index_set)@.len() as int) == old(index_set)@,
            match r {
                Ok(_) => {
                    &&& self@.contains_key(cur_sym)
                    &&& forall|x: Sym|
                        final(index_set)@.contains(x) <==> (old(index_set)@.contains(x)
                            || reachable(
                            self@,
                            Map::empty(),
                            false,
                            cur_sym,
                            old(index_set)@,
                            x,
                        ))
                    &&& forall|x: Sym|
                        in_search(cur_sym, old(index_set)@, final(index_set)@, x)
                            && self@.contains_key(x) ==> #[trigger] closed_at(
                            self@,
                            Map::empty(),
                            false,
                            final(index_set)@,
                            x,
                        )
                },
                Err(e) => {
                    &&& e == RxError::BadReference(cur_sym)
                    &&& !self@.contains_key(cur_sym)
                    &&& final(index_set)@ == old(index_set)@
                },
            },
    {
        let none = StagedNodes::new();
        proof {
            assert(staged_map(none@) =~= Map::<Sym, NodeView>::empty());
            lemma_backward_never_dangles(
                self@,
                self.counters(),
                Map::empty(),
                cur_sym,
                index_set@,
            );
        }
        self.reach(cur_sym, index_set, false, &none)
    }

    /// Adds to `index_set` the current descendants of `cur_sym`, without
    /// `cur_sym` itself: every node without newer version that a walk along
    /// the child edges leads to. The children of a node staged in `staged`
    /// are those of the staged node.
    pub fn collect_descendants(
        &self,
        cur_sym: Sym,
        index_set: &mut SymSet,
        staged: &StagedNodes,
    ) -> (r: Result<(), RxError>)
        requires
            self.wf(),
            old(index_set).wf(),
            staged.wf(),
        ensures
            final(index_set).wf(),
            old(index_set)@.len() <= final(index_set)@.len(),
            final(index_set)@.take(old(index_set)@.len() as int) == old(index_set)@,
            match r {
                Ok(_) => {
                    &&& self@.contains_key(cur_sym)
                    &&& forall|x: Sym|
                        final(index_set)@.contains(x) <==> (old(index_set)@.contains(x)
                            || reachable(
                            self@,
                            staged_map(staged@),
                            true,
                            cur_sym,
                            old(index_set)@,
                            x,
                        ))
                    &&& forall|y: Sym|
                        !dangling(self@, staged_map(staged@), true, cur_sym, old(index_set)@, y)
                },
                Err(e) => {
                    &&& e matches RxError::BadReference(y)
                    &&& if self@.contains_key(cur_sym) {
                        dangling(self@, staged_map(staged@), true, cur_sym, old(index_set)@, y)
                    } else {
                        y == cur_sym && final(index_set)@ == old(index_set)@
                    }
                },
            },
    {
        self.reach(cur_sym, index_set, true, staged)
    }
}

/// A node that a walk leads to has a record and no newer version.
pub proof fn lemma_reached_is_latest(
    m: Graph,
    overlay: Map<Sym, NodeView>,
    forward: bool,
    start: Sym,
    avoid: Seq<Sym>,
    x: Sym,
)
    requires
        reachable(m, overlay, forward, start, avoid, x),
    ensures
        is_latest(m, x),
        !avoid.contains(x),
{
    let walk = choose|walk: Seq<Sym>| #[trigger]
        is_walk(m, overlay, forward, start, avoid, walk) && walk.last() == x;
    assert(!avoid.contains(walk[walk.len() - 1]));
    if walk.len() == 1 {
        assert(is_latest(m, walk[0]));
    } else {
        assert(step(m, overlay, forward, walk[walk.len() - 2], walk[walk.len() - 2 + 1]));
    }
}

/// Along the reverse edges of a graph that keeps its invariant, a search
/// from a recorded node meets recorded nodes only.
pub proof fn lemma_backward_never_dangles(
    m: Graph,
    counters: Seq<u32>,
    overlay: Map<Sym, NodeView>,
    start: Sym,
    avoid: Seq<Sym>,
)
    requires
        graph_wf(m, counters),
    ensures
        m.contains_key(start) ==> forall|y: Sym|
            !dangling(m, overlay, false, start, avoid, y),
{
    if m.contains_key(start) {
        assert forall|y: Sym| !dangling(m, overlay, false, start, avoid, y) by {
            if dangling(m, overlay, false, start, avoid, y) {
                let x = choose|x: Sym|
                    (x == start || reachable(m, overlay, false, start, avoid, x))
                        && #[trigger] edges(m, overlay, false, x).contains(y);
                if x != start {
                    let walk = choose|walk: Seq<Sym>| #[trigger]
                        is_walk(m, overlay, false, start, avoid, walk) && walk.last() == x;
                    if walk.len() == 1 {
                        assert(is_latest(m, walk[0]));
                    } else {
                        assert(step(m, overlay, false, walk[walk.len() - 2], walk[walk.len() - 2 + 1]));
                    }
                }
                assert(m.contains_key(x));
                let es = m[x].preds;
                let j = choose|j: int| 0 <= j < es.len() && es[j] == y;
                assert(m.contains_key(es[j]));
            }
        }
    }
}

/// A node reached by one step from a node of the search is reached by a
/// walk.
pub proof fn lemma_reach_grows(
    m: Graph,
    overlay: Map<Sym, NodeView>,
    forward: bool,
    start: Sym,
    avoid: Seq<Sym>,
    seen: Seq<Sym>,
    x: Sym,
    y: Sym,
)
    requires
        in_search(start, avoid, seen, x),
        x != start ==> reachable(m, overlay, forward, start, avoid, x),
        step(m, overlay, forward, x, y),
        !avoid.contains(y),
    ensures
        reachable(m, overlay, forward, start, avoid, y),
{
    if x == start {
        let walk = seq![y];
        assert(is_walk(m, overlay, forward, start, avoid, walk));
        assert(walk.last() == y);
    } else {
        let to_x = choose|walk: Seq<Sym>| #[trigger]
            is_walk(m, overlay, forward, start, avoid, walk) && walk.last() == x;
        let walk = to_x.push(y);
        assert forall|i: int| 0 <= i < walk.len() - 1 implies step(
            m,
            overlay,
            forward,
            #[trigger] walk[i],
            walk[i + 1],
        ) by {
            if i < to_x.len() - 1 {
                assert(step(m, overlay, forward, to_x[i], to_x[i + 1]));
            }
        }
        assert forall|i: int| 0 <= i < walk.len() implies !avoid.contains(#[trigger] walk[i]) by {
            if i < to_x.len() {
                assert(!avoid.contains(to_x[i]));
            }
        }
        assert(walk[0] == to_x[0]);
        assert(is_walk(m, overlay, forward, start, avoid, walk));
        assert(walk.last() == y);
    }
}

} // verus!
