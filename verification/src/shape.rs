//! What the eager protocol keeps of the working graph beyond the graph's own
//! invariant: the reverse edges of a node show parents only, and no node is
//! below itself.

use crate::graph::{
    graph_wf, is_latest, latest, lemma_add_preds, lemma_latest_props, record_ok, registered,
    resolver, Graph,
};
use crate::laws::{law_cycle_has_no_order, lemma_walk_up_is_walk_down};
use crate::node::{lemma_children_relink, NodeView, WorkAreaNodeView};
use crate::reach::{is_walk, lemma_reach_grows, reachable, step};
use crate::rx::{eager_step, sendable};
use crate::sym::Sym;
use crate::topo::children_first;
use crate::version::{
    lemma_contains_add, lemma_index_of, lemma_missing_parents, linked, missing_parents, renamed,
    succeeded, versionable, versioned,
};
use vstd::prelude::*;

verus! {

/// Whether the reverse edges show parents only: each current node that is
/// listed among the reverse edges of a node names that node as a child.
pub open spec fn preds_sound(m: Graph) -> bool {
    forall|c: Sym, p: Sym|
        m.contains_key(c) && #[trigger] m[c].preds.contains(p) && is_latest(m, p)
            ==> m[p].succs().contains(c)
}

/// Whether no node is below itself: no walk along the child edges through
/// current nodes leads from a node back to it.
pub open spec fn acyclic(m: Graph) -> bool {
    forall|x: Sym| !(#[trigger] reachable(m, Map::empty(), true, x, Seq::empty(), x))
}

/// What the eager protocol keeps of the graph.
pub open spec fn tidy(m: Graph) -> bool {
    preds_sound(m) && acyclic(m)
}

/// The graph without records is tidy.
pub proof fn lemma_empty_tidy()
    ensures
        tidy(Map::<Sym, WorkAreaNodeView>::empty()),
{
    let m = Map::<Sym, WorkAreaNodeView>::empty();
    let none = Map::<Sym, NodeView>::empty();
    assert forall|x: Sym| !(#[trigger] reachable(m, none, true, x, Seq::empty(), x)) by {
        if reachable(m, none, true, x, Seq::empty(), x) {
            let walk = choose|walk: Seq<Sym>| #[trigger]
                is_walk(m, none, true, x, Seq::empty(), walk) && walk.last() == x;
            assert(step(m, none, true, x, walk[0]));
        }
    }
}

/// A walk along the child edges after a registration that starts at a node
/// recorded before is a walk before the registration.
proof fn lemma_walk_before_registration(
    m: Graph,
    counters: Seq<u32>,
    node: NodeView,
    auto_latest: bool,
    start: Sym,
    walk: Seq<Sym>,
    n: int,
)
    requires
        graph_wf(m, counters),
        !m.contains_key(node.sym),
        forall|i: int|
            0 <= i < node.relinked(resolver(m, auto_latest)).succs().len() ==> m.contains_key(
                #[trigger] node.relinked(resolver(m, auto_latest)).succs()[i],
            ),
        m.contains_key(start),
        is_walk(registered(m, node, auto_latest), Map::empty(), true, start, Seq::empty(), walk),
        0 <= n < walk.len(),
    ensures
        is_latest(m, walk[n]),
        step(
            m,
            Map::empty(),
            true,
            if n == 0 {
                start
            } else {
                walk[n - 1]
            },
            walk[n],
        ),
    decreases n,
{
    let none = Map::<Sym, NodeView>::empty();
    let out = registered(m, node, auto_latest);
    let kids = node.relinked(resolver(m, auto_latest)).succs();
    lemma_add_preds(m, kids, node.sym);
    let from = if n == 0 {
        start
    } else {
        walk[n - 1]
    };
    if n > 0 {
        lemma_walk_before_registration(m, counters, node, auto_latest, start, walk, n - 1);
        assert(step(out, none, true, walk[n - 1], walk[n - 1 + 1]));
    } else {
        assert(step(out, none, true, start, walk[0]));
    }
    assert(m.contains_key(from));
    assert(out[from].node == m[from].node);
    assert(record_ok(m, counters, from));
    let j = choose|j: int| 0 <= j < m[from].succs().len() && m[from].succs()[j] == walk[n];
    assert(m.contains_key(m[from].succs()[j]));
    assert(out[walk[n]].next == m[walk[n]].next);
}

/// Registering a node keeps the graph tidy.
pub proof fn lemma_registered_tidy(m: Graph, counters: Seq<u32>, node: NodeView, auto_latest: bool)
    requires
        graph_wf(m, counters),
        tidy(m),
        !m.contains_key(node.sym),
        forall|i: int|
            0 <= i < node.relinked(resolver(m, auto_latest)).succs().len() ==> m.contains_key(
                #[trigger] node.relinked(resolver(m, auto_latest)).succs()[i],
            ),
    ensures
        tidy(registered(m, node, auto_latest)),
{
    let none = Map::<Sym, NodeView>::empty();
    let kids = node.relinked(resolver(m, auto_latest)).succs();
    let sym = node.sym;
    let out = registered(m, node, auto_latest);
    lemma_add_preds(m, kids, sym);
    assert forall|c: Sym, p: Sym|
        out.contains_key(c) && #[trigger] out[c].preds.contains(p) && is_latest(
            out,
            p,
        ) implies out[p].succs().contains(c) by {
        if c != sym {
            assert(m.contains_key(c));
            assert(record_ok(m, counters, c));
            let after = out[c].preds;
            let before = m[c].preds;
            assert(after.take(before.len() as int) == before);
            let i = choose|i: int| 0 <= i < after.len() && after[i] == p;
            if i < before.len() {
                assert(after.take(before.len() as int)[i] == p);
                assert(before[i] == p);
                assert(before.contains(p));
                assert(m.contains_key(before[i]));
                assert(out[p].succs() == m[p].succs());
            } else {
                assert(p == sym);
                assert(kids.contains(c));
            }
        }
    }
    assert forall|x: Sym| !(#[trigger] reachable(out, none, true, x, Seq::empty(), x)) by {
        if reachable(out, none, true, x, Seq::empty(), x) {
            let walk = choose|walk: Seq<Sym>| #[trigger]
                is_walk(out, none, true, x, Seq::empty(), walk) && walk.last() == x;
            assert(step(out, none, true, x, walk[0]));
            if x == sym {
                // the first step leads to a node recorded before, and from there no
                // step leads to the new node
                let first = walk[0];
                let j = choose|j: int| 0 <= j < kids.len() && kids[j] == first;
                assert(m.contains_key(kids[j]));
                if walk.len() > 1 {
                    let rest = walk.skip(1);
                    assert(is_walk(out, none, true, first, Seq::empty(), rest)) by {
                        assert(step(out, none, true, walk[0], walk[0int + 1]));
                        assert(rest[0] == walk[1]);
                        assert forall|i: int| 0 <= i < rest.len() - 1 implies step(
                            out,
                            none,
                            true,
                            #[trigger] rest[i],
                            rest[i + 1],
                        ) by {
                            assert(step(out, none, true, walk[i + 1], walk[i + 1 + 1]));
                        }
                    }
                    lemma_walk_before_registration(
                        m,
                        counters,
                        node,
                        auto_latest,
                        first,
                        rest,
                        rest.len() - 1,
                    );
                    assert(rest[rest.len() - 1] == x);
                }
            } else {
                assert(m.contains_key(x));
                assert forall|i: int| 0 <= i < walk.len() - 1 implies step(
                    m,
                    none,
                    true,
                    #[trigger] walk[i],
                    walk[i + 1],
                ) by {
                    lemma_walk_before_registration(m, counters, node, auto_latest, x, walk, i + 1);
                }
                lemma_walk_before_registration(m, counters, node, auto_latest, x, walk, 0);
                assert(is_walk(m, none, true, x, Seq::empty(), walk));
                assert(reachable(m, none, true, x, Seq::empty(), x));
            }
        }
    }
}

/// A walk along the child edges after a versioning step that starts at a
/// node recorded before is a walk before the step.
proof fn lemma_walk_before_step(
    m: Graph,
    counters: Seq<u32>,
    olds: Seq<Sym>,
    news: Seq<Sym>,
    repl: Map<Sym, NodeView>,
    staged: bool,
    start: Sym,
    walk: Seq<Sym>,
    n: int,
)
    requires
        graph_wf(m, counters),
        versionable(m, olds, news, repl),
        m.contains_key(start),
        is_walk(
            versioned(m, olds, news, repl, staged),
            Map::empty(),
            true,
            start,
            Seq::empty(),
            walk,
        ),
        0 <= n < walk.len(),
    ensures
        is_latest(m, walk[n]),
        step(
            m,
            Map::empty(),
            true,
            if n == 0 {
                start
            } else {
                walk[n - 1]
            },
            walk[n],
        ),
    decreases n,
{
    let none = Map::<Sym, NodeView>::empty();
    let out = versioned(m, olds, news, repl, staged);
    let from = if n == 0 {
        start
    } else {
        walk[n - 1]
    };
    if n > 0 {
        lemma_walk_before_step(m, counters, olds, news, repl, staged, start, walk, n - 1);
        assert(step(out, none, true, walk[n - 1], walk[n - 1 + 1]));
    } else {
        assert(step(out, none, true, start, walk[0]));
    }
    assert(m.contains_key(from));
    lemma_old_record(m, olds, news, repl, staged, from);
    assert(record_ok(m, counters, from));
    let y = walk[n];
    let j = choose|j: int| 0 <= j < m[from].succs().len() && m[from].succs()[j] == y;
    assert(m.contains_key(m[from].succs()[j]));
    lemma_old_record(m, olds, news, repl, staged, y);
}

/// After a versioning step a node recorded before holds the payload it
/// held, and has a newer version where it had one or got one.
proof fn lemma_old_record(
    m: Graph,
    olds: Seq<Sym>,
    news: Seq<Sym>,
    repl: Map<Sym, NodeView>,
    staged: bool,
    k: Sym,
)
    requires
        versionable(m, olds, news, repl),
        m.contains_key(k),
    ensures
        !news.contains(k),
        versioned(m, olds, news, repl, staged).contains_key(k),
        versioned(m, olds, news, repl, staged)[k].node == m[k].node,
        versioned(m, olds, news, repl, staged)[k].next is None ==> m[k].next is None
            && !olds.contains(k),
        !olds.contains(k) ==> versioned(m, olds, news, repl, staged)[k].next == m[k].next,
        versioned(m, olds, news, repl, staged)[k].preds == m[k].preds + missing_parents(
            succeeded(m, olds, news, repl, staged),
            news,
            k,
        ),
{
    if news.contains(k) {
        let j = choose|j: int| 0 <= j < news.len() && news[j] == k;
        assert(!m.contains_key(news[j]));
    }
    if olds.contains(k) {
        let i = olds.index_of(k);
        assert(olds[i] == k);
    }
}

/// Where the reverse edges show parents only and no node is below itself,
/// a current node names neither itself nor one of its current ancestors.
proof fn lemma_names_no_ancestor(m: Graph, t: Sym, a: Sym)
    requires
        tidy(m),
        is_latest(m, t),
        is_latest(m, a),
        a == t || reachable(m, Map::empty(), false, t, Seq::empty(), a),
    ensures
        !m[t].succs().contains(a),
{
    let none = Map::<Sym, NodeView>::empty();
    if m[t].succs().contains(a) {
        assert(step(m, none, true, t, a));
        if a == t {
            let walk = seq![t];
            assert(is_walk(m, none, true, t, Seq::empty(), walk));
            assert(walk.last() == t);
        } else {
            let up = choose|walk: Seq<Sym>| #[trigger]
                is_walk(m, none, false, t, Seq::empty(), walk) && walk.last() == a;
            lemma_walk_up_is_walk_down(m, t, a, up);
            let rest = choose|rest: Seq<Sym>| #[trigger]
                is_walk(m, none, true, a, Seq::empty(), rest) && rest.last() == t;
            let down = seq![a] + rest;
            assert(down[0] == a);
            assert forall|i: int| 0 <= i < down.len() - 1 implies step(
                m,
                none,
                true,
                #[trigger] down[i],
                down[i + 1],
            ) by {
                if i == 0 {
                    assert(down[1] == rest[0]);
                    assert(step(m, none, true, a, rest[0]));
                } else {
                    assert(down[i] == rest[i - 1]);
                    assert(down[i + 1] == rest[i - 1 + 1]);
                    assert(step(m, none, true, rest[i - 1], rest[i - 1 + 1]));
                }
            }
            assert(is_walk(m, none, true, t, Seq::empty(), down));
            assert(down.last() == rest.last());
        }
        assert(reachable(m, none, true, t, Seq::empty(), t));
    }
}

/// An eager round whose new versions can be sent keeps the graph tidy.
pub proof fn lemma_round_tidy(
    m: Graph,
    counters: Seq<u32>,
    payload: NodeView,
    olds: Seq<Sym>,
    news: Seq<Sym>,
    m2: Graph,
    counters2: Seq<u32>,
)
    requires
        graph_wf(m, counters),
        tidy(m),
        eager_step(m, counters, payload, olds, news, m2, counters2),
        sendable(m2, news, renamed(olds, news, latest(m, payload.sym))),
    ensures
        tidy(m2),
{
    let none = Map::<Sym, NodeView>::empty();
    let t = latest(m, payload.sym);
    let repl = none.insert(t, payload);
    let g = succeeded(m, olds, news, repl, false);
    let link = |x: Sym| linked(m, olds, news, false, x);
    lemma_latest_props(m, counters, payload.sym);
    assert forall|c: Sym, p: Sym|
        m2.contains_key(c) && #[trigger] m2[c].preds.contains(p) && is_latest(
            m2,
            p,
        ) implies m2[p].succs().contains(c) by {
        lemma_missing_parents(g, news, c);
        lemma_contains_add(g[c].preds, missing_parents(g, news, c), p);
        if !missing_parents(g, news, c).contains(p) {
            assert(g[c].preds.contains(p));
            if news.contains(c) {
                let j = news.index_of(c);
                assert(news[j] == c);
                let had = m[olds[j]].preds;
                assert(g[c].preds == had.map_values(link));
                let k = choose|k: int| 0 <= k < g[c].preds.len() && g[c].preds[k] == p;
                let q = had[k];
                assert(p == renamed(olds, news, q));
                assert(is_latest(m, olds[j]));
                assert(record_ok(m, counters, olds[j]));
                assert(m.contains_key(had[k]));
                assert(had.contains(q));
                assert(olds.contains(olds[j]));
                if olds.contains(q) {
                    let i = olds.index_of(q);
                    assert(olds[i] == q);
                    assert(is_latest(m, olds[i]));
                    assert(m[q].succs().contains(olds[j]));
                    lemma_names_no_ancestor(m, t, olds[j]);
                    assert(q != t);
                    lemma_index_of(news, i);
                    assert(!repl.contains_key(q));
                    lemma_children_relink(m[q].node.with_sym(news[i]).fields, link);
                    let kids = m2[news[i]].succs();
                    assert(kids == m[q].succs().map_values(link));
                    let at = choose|at: int|
                        0 <= at < m[q].succs().len() && m[q].succs()[at] == olds[j];
                    lemma_index_of(olds, j);
                    assert(kids[at] == news[j]);
                } else {
                    lemma_old_record(m, olds, news, repl, false, q);
                    assert(is_latest(m, q));
                    assert(step(m, none, false, olds[j], q));
                    if olds[j] != t {
                        assert(seq![olds[j]][0] == olds[j]);
                        lemma_reach_grows(m, none, false, t, Seq::empty(), seq![olds[j]], olds[j], q);
                    } else {
                        let up = seq![q];
                        assert(is_walk(m, none, false, t, Seq::empty(), up));
                        assert(up.last() == q);
                    }
                    assert(reachable(m, none, false, t, Seq::empty(), q));
                }
            } else {
                assert(m.contains_key(c));
                lemma_old_record(m, olds, news, repl, false, c);
                assert(g[c].preds == m[c].preds) by {
                    if olds.contains(c) {
                        let i = olds.index_of(c);
                        assert(olds[i] == c);
                    }
                }
                assert(record_ok(m, counters, c));
                let k = choose|k: int| 0 <= k < m[c].preds.len() && m[c].preds[k] == p;
                assert(m.contains_key(m[c].preds[k]));
                lemma_old_record(m, olds, news, repl, false, p);
                assert(is_latest(m, p));
            }
        }
    }
    let order = choose|o: Seq<Sym>| children_first(m2, news, o);
    assert forall|x: Sym| !(#[trigger] reachable(m2, none, true, x, Seq::empty(), x)) by {
        if reachable(m2, none, true, x, Seq::empty(), x) {
            let walk = choose|walk: Seq<Sym>| #[trigger]
                is_walk(m2, none, true, x, Seq::empty(), walk) && walk.last() == x;
            assert(step(m2, none, true, x, walk[0]));
            let n = walk.len() as int;
            if news.contains(x) {
                // the walk never leaves the new versions, which would then name each
                // other in a circle
                assert forall|i: int| 0 <= i < n implies news.contains(#[trigger] walk[i]) by {
                    if !news.contains(walk[i]) {
                        if i > 0 {
                            assert(step(m2, none, true, walk[i - 1], walk[i - 1 + 1]));
                        }
                        assert(m.contains_key(walk[i]));
                        if i < n - 1 {
                            let rest = walk.skip(i + 1);
                            assert(is_walk(m2, none, true, walk[i], Seq::empty(), rest)) by {
                                assert(step(m2, none, true, walk[i], walk[i + 1]));
                                assert(rest[0] == walk[i + 1]);
                                assert forall|k: int| 0 <= k < rest.len() - 1 implies step(
                                    m2,
                                    none,
                                    true,
                                    #[trigger] rest[k],
                                    rest[k + 1],
                                ) by {
                                    assert(step(m2, none, true, walk[i + 1 + k], walk[i + 1 + k + 1]));
                                }
                            }
                            lemma_walk_before_step(
                                m,
                                counters,
                                olds,
                                news,
                                repl,
                                false,
                                walk[i],
                                rest,
                                rest.len() - 1,
                            );
                            assert(rest[rest.len() - 1] == x);
                        }
                        lemma_old_record(m, olds, news, repl, false, x);
                    }
                }
                assert forall|i: int| 0 <= i < n - 1 implies m2[#[trigger] walk[i]].succs().contains(
                    walk[i + 1],
                ) by {
                    assert(step(m2, none, true, walk[i], walk[i + 1]));
                }
                law_cycle_has_no_order(m2, news, walk, order);
            } else {
                assert(m.contains_key(x));
                assert forall|i: int| 0 <= i < n - 1 implies step(
                    m,
                    none,
                    true,
                    #[trigger] walk[i],
                    walk[i + 1],
                ) by {
                    lemma_walk_before_step(m, counters, olds, news, repl, false, x, walk, i + 1);
                }
                lemma_walk_before_step(m, counters, olds, news, repl, false, x, walk, 0);
                assert(is_walk(m, none, true, x, Seq::empty(), walk));
                assert(reachable(m, none, true, x, Seq::empty(), x));
            }
        }
    }
}

} // verus!
