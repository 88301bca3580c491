//! What holds of the working graph across the operations of the engines,
//! stated over the same models as the contracts of these.

use crate::graph::{
    graph_wf, is_latest, latest, lemma_latest_props, preds_complete, record_ok, Graph,
};
use crate::node::{lemma_children_relink, NodeView};
use crate::reach::{is_walk, lemma_reach_grows, reachable, step};
use crate::rx::{eager_cyclic, eager_outcome, eager_step, sendable};
use crate::rx_vt::{back_from, payloads, staged_step};
use crate::shape::preds_sound;
use crate::staged::staged_keys;
use crate::sym::Sym;
use crate::topo::{children_first, count_in, lemma_count_in_zero};
use crate::version::{
    advanced, count_ty, lemma_index_of, lemma_minted_versionable, lemma_missing_parents, linked,
    minted, missing_parents, renamed, room_for, succeeded, versionable, versioned,
};
use vstd::prelude::*;

verus! {

/// Resolving a symbol to its current version twice gives what resolving it
/// once gives.
pub proof fn law_latest_idempotent(m: Graph, s: Sym)
    ensures
        latest(m, latest(m, s)) == latest(m, s),
    decreases u32::MAX - s.serial,
{
    if m.contains_key(s) && m[s].next is Some && m[s].next->0.serial > s.serial {
        law_latest_idempotent(m, m[s].next->0);
    }
}

/// Along the chain of versions of a node the symbols grow: the current
/// version of a recorded node is of the node's type, and it is the node
/// itself or a later symbol.
pub proof fn law_chain_grows(m: Graph, counters: Seq<u32>, s: Sym)
    requires
        graph_wf(m, counters),
        m.contains_key(s),
    ensures
        latest(m, s).ty == s.ty,
        latest(m, s) == s || latest(m, s).serial > s.serial,
        m[s].next matches Some(n) ==> n.ty == s.ty && n.serial > s.serial,
{
    lemma_latest_props(m, counters, s);
    assert(record_ok(m, counters, s));
}

/// The symbols of new versions are used once: each is the symbol of no
/// record made before, later than every recorded symbol of its type, of the
/// type of the node it is a version of, and different from the symbol of
/// every other new version. After the step each old version points to its
/// new version.
pub proof fn law_version_monotonicity(
    m: Graph,
    counters: Seq<u32>,
    olds: Seq<Sym>,
    news: Seq<Sym>,
    repl: Map<Sym, NodeView>,
    staged: bool,
)
    requires
        graph_wf(m, counters),
        olds.no_duplicates(),
        forall|i: int| 0 <= i < olds.len() ==> is_latest(m, #[trigger] olds[i]),
        room_for(counters, olds),
        minted(counters, olds, news),
    ensures
        news.no_duplicates(),
        forall|i: int| 0 <= i < news.len() ==> !m.contains_key(#[trigger] news[i]),
        forall|i: int| 0 <= i < news.len() ==> (#[trigger] news[i]).ty == olds[i].ty,
        forall|i: int, k: Sym|
            0 <= i < news.len() && #[trigger] m.contains_key(k) && k.ty == (#[trigger] news[i]).ty
                ==> k.serial < news[i].serial,
        forall|i: int|
            0 <= i < olds.len() ==> (#[trigger] versioned(m, olds, news, repl, staged)[olds[i]]).next
                == Some(news[i]),
        forall|i: int|
            0 <= i < news.len() ==> (#[trigger] versioned(m, olds, news, repl, staged)[news[i]]).next
                is None,
{
    let none = Map::<Sym, NodeView>::empty();
    lemma_minted_versionable(m, counters, olds, news, none);
    assert forall|i: int, k: Sym|
        0 <= i < news.len() && #[trigger] m.contains_key(k) && k.ty == (
        #[trigger] news[i]).ty implies k.serial < news[i].serial by {
        assert(record_ok(m, counters, k));
    }
    assert forall|i: int| 0 <= i < olds.len() implies (#[trigger] versioned(
        m,
        olds,
        news,
        repl,
        staged,
    )[olds[i]]).next == Some(news[i]) by {
        lemma_index_of(olds, i);
        assert(is_latest(m, olds[i]));
        if news.contains(olds[i]) {
            let j = choose|j: int| 0 <= j < news.len() && news[j] == olds[i];
            assert(!m.contains_key(news[j]));
        }
    }
    assert forall|i: int| 0 <= i < news.len() implies (#[trigger] versioned(
        m,
        olds,
        news,
        repl,
        staged,
    )[news[i]]).next is None by {
        lemma_index_of(news, i);
    }
}

/// Where the members of a set name each other in a circle along the child
/// edges, no order puts every child before its parents: the search for
/// such an order ends in a cycle violation.
pub proof fn law_cycle_has_no_order(m: Graph, set: Seq<Sym>, circle: Seq<Sym>, order: Seq<Sym>)
    requires
        circle.len() >= 1,
        forall|i: int| 0 <= i < circle.len() ==> set.contains(#[trigger] circle[i]),
        forall|i: int|
            0 <= i < circle.len() - 1 ==> m[#[trigger] circle[i]].succs().contains(circle[i + 1]),
        m[circle.last()].succs().contains(circle[0]),
    ensures
        !children_first(m, set, order),
{
    if children_first(m, set, order) {
        lemma_circle_descends(m, set, circle, order, circle.len() - 1);
        // the child of the last member is the first member, which stands later
        let last = circle.last();
        let at = order.index_of(last);
        assert(set.contains(circle[circle.len() - 1]));
        assert(order.contains(last));
        assert(order[at] == last);
        let j = choose|j: int| 0 <= j < m[last].succs().len() && m[last].succs()[j] == circle[0];
        assert(set.contains(circle[0]));
        assert(set.contains(m[order[at]].succs()[j]));
        assert(order.take(at).contains(m[order[at]].succs()[j]));
        let k = choose|k: int| 0 <= k < order.take(at).len() && order.take(at)[k] == circle[0];
        assert(order[k] == circle[0]);
        assert(order.contains(circle[0]));
        let first_at = order.index_of(circle[0]);
        assert(order[first_at] == circle[0]);
        assert(first_at == k);
    }
}

/// A change that makes a node name itself or one of its current ancestors
/// as a child closes a circle, and the eager round for it would leave new
/// versions that cannot be sent: the change is refused as a cycle, and
/// nothing is written.
pub proof fn law_closing_a_circle_is_refused(
    m: Graph,
    counters: Seq<u32>,
    payload: NodeView,
    olds: Seq<Sym>,
    news: Seq<Sym>,
    m2: Graph,
    counters2: Seq<u32>,
    x: Sym,
)
    requires
        eager_step(m, counters, payload, olds, news, m2, counters2),
        payload.succs().contains(x),
        olds.contains(x),
    ensures
        !sendable(m2, news, renamed(olds, news, latest(m, payload.sym))),
        eager_cyclic(m, counters, payload),
{
    let t = latest(m, payload.sym);
    let repl = Map::<Sym, NodeView>::empty().insert(t, payload);
    assert(olds.contains(t));
    let at = olds.index_of(t);
    assert(olds[at] == t);
    let target = news[at];
    lemma_index_of(news, at);
    let link = |c: Sym| linked(m, olds, news, false, c);
    lemma_children_relink(payload.with_sym(target).fields, link);
    let kids = m2[target].succs();
    assert(kids == payload.succs().map_values(link));
    let j = choose|j: int| 0 <= j < payload.succs().len() && payload.succs()[j] == x;
    let xa = olds.index_of(x);
    assert(olds[xa] == x);
    assert(kids[j] == news[xa]);
    assert(news.contains(news[xa]));
    if count_in(kids, news.to_set()) == 0 {
        lemma_count_in_zero(kids, news.to_set(), j);
    }
    assert(m2 == eager_outcome(m, payload, olds, news));
    assert(eager_step(
        m,
        counters,
        payload,
        olds,
        news,
        eager_outcome(m, payload, olds, news),
        advanced(counters, olds),
    ));
}

/// Along a chain of children the places in an order that puts children
/// first go down by one at least with every step.
proof fn lemma_circle_descends(m: Graph, set: Seq<Sym>, circle: Seq<Sym>, order: Seq<Sym>, n: int)
    requires
        children_first(m, set, order),
        0 <= n < circle.len(),
        forall|i: int| 0 <= i < circle.len() ==> set.contains(#[trigger] circle[i]),
        forall|i: int|
            0 <= i < circle.len() - 1 ==> m[#[trigger] circle[i]].succs().contains(circle[i + 1]),
    ensures
        order.contains(circle[n]),
        order.index_of(circle[n]) + n <= order.index_of(circle[0]),
    decreases n,
{
    assert(set.contains(circle[n]));
    assert(order.contains(circle[n]));
    if n > 0 {
        lemma_circle_descends(m, set, circle, order, n - 1);
        let parent = circle[n - 1];
        let at = order.index_of(parent);
        assert(order[at] == parent);
        assert(m[circle[n - 1]].succs().contains(circle[n - 1 + 1]));
        let j = choose|j: int| 0 <= j < m[parent].succs().len() && m[parent].succs()[j] == circle[n];
        assert(set.contains(m[order[at]].succs()[j]));
        assert(order.take(at).contains(m[order[at]].succs()[j]));
        let k = choose|k: int| 0 <= k < order.take(at).len() && order.take(at)[k] == circle[n];
        assert(order[k] == circle[n]);
        let here = order.index_of(circle[n]);
        assert(order[here] == circle[n]);
        assert(here == k);
    }
}

/// Where the reverse edges show every current parent, a current node from
/// which a walk along the child edges leads to `t` through current nodes is
/// a current ancestor of `t`.
pub proof fn lemma_walk_down_is_walk_up(m: Graph, a: Sym, t: Sym, walk: Seq<Sym>)
    requires
        preds_complete(m),
        is_latest(m, a),
        is_walk(m, Map::empty(), true, a, Seq::empty(), walk),
        walk.last() == t,
    ensures
        reachable(m, Map::empty(), false, t, Seq::empty(), a),
    decreases walk.len(),
{
    let none = Map::<Sym, NodeView>::empty();
    let first = walk[0];
    assert(step(m, none, true, a, walk[0]));
    assert(m[a].succs().contains(first));
    assert(m[first].preds.contains(a));
    assert(step(m, none, false, first, a));
    if walk.len() == 1 {
        let up = seq![a];
        assert(is_walk(m, none, false, t, Seq::empty(), up));
        assert(up.last() == a);
    } else {
        let rest = walk.skip(1);
        assert(is_walk(m, none, true, first, Seq::empty(), rest)) by {
            assert(step(m, none, true, walk[0], walk[0int + 1]));
            assert(rest[0] == walk[1]);
            assert forall|i: int| 0 <= i < rest.len() - 1 implies step(
                m,
                none,
                true,
                #[trigger] rest[i],
                rest[i + 1],
            ) by {
                assert(step(m, none, true, walk[i + 1], walk[i + 1 + 1]));
            }
        }
        assert(rest.last() == t);
        lemma_walk_down_is_walk_up(m, first, t, rest);
        assert(seq![first][0] == first);
        lemma_reach_grows(m, none, false, t, Seq::empty(), seq![first], first, a);
    }
}

/// Where the reverse edges show parents only, a current ancestor of the
/// current node `t` is a current node from which a walk along the child
/// edges leads to `t` through current nodes.
pub proof fn lemma_walk_up_is_walk_down(m: Graph, t: Sym, a: Sym, walk: Seq<Sym>)
    requires
        preds_sound(m),
        is_latest(m, t),
        is_walk(m, Map::empty(), false, t, Seq::empty(), walk),
        walk.last() == a,
    ensures
        is_latest(m, a),
        reachable(m, Map::empty(), true, a, Seq::empty(), t),
    decreases walk.len(),
{
    let none = Map::<Sym, NodeView>::empty();
    let n = walk.len() as int;
    if n == 1 {
        assert(step(m, none, false, t, walk[0]));
        assert(m[a].succs().contains(t));
        let down = seq![t];
        assert(step(m, none, true, a, down[0]));
        assert(is_walk(m, none, true, a, Seq::empty(), down));
        assert(down.last() == t);
    } else {
        let b = walk[n - 2];
        assert(step(m, none, false, walk[n - 2], walk[n - 2 + 1]));
        let init = walk.drop_last();
        assert(is_walk(m, none, false, t, Seq::empty(), init)) by {
            assert(init[0] == walk[0]);
            assert forall|i: int| 0 <= i < init.len() - 1 implies step(
                m,
                none,
                false,
                #[trigger] init[i],
                init[i + 1],
            ) by {
                assert(step(m, none, false, walk[i], walk[i + 1]));
            }
        }
        assert(init.last() == b);
        lemma_walk_up_is_walk_down(m, t, b, init);
        assert(m[a].succs().contains(b));
        assert(step(m, none, true, a, b));
        let rest = choose|rest: Seq<Sym>| #[trigger]
            is_walk(m, none, true, b, Seq::empty(), rest) && rest.last() == t;
        let down = seq![b] + rest;
        assert(down[0] == b);
        assert forall|i: int| 0 <= i < down.len() - 1 implies step(
            m,
            none,
            true,
            #[trigger] down[i],
            down[i + 1],
        ) by {
            if i == 0 {
                assert(down[1] == rest[0]);
                assert(step(m, none, true, b, rest[0]));
            } else {
                assert(down[i] == rest[i - 1]);
                assert(down[i + 1] == rest[i - 1 + 1]);
                assert(step(m, none, true, rest[i - 1], rest[i - 1 + 1]));
            }
        }
        assert(is_walk(m, none, true, a, Seq::empty(), down));
        assert(down.last() == rest.last());
    }
}

/// A path along the child edges from `a` down to `t`: at least one edge,
/// every node names the next as a child, and every node but `t` is
/// current.
pub open spec fn is_path_down(m: Graph, a: Sym, t: Sym, path: Seq<Sym>) -> bool {
    &&& path.len() >= 2
    &&& path[0] == a
    &&& path.last() == t
    &&& forall|i: int|
        0 <= i < path.len() - 1 ==> is_latest(m, #[trigger] path[i]) && m[path[i]].succs().contains(
            path[i + 1],
        )
}

/// Whether a path along the child edges leads from `a` down to `t`.
pub open spec fn leads_down(m: Graph, a: Sym, t: Sym) -> bool {
    exists|path: Seq<Sym>| #[trigger] is_path_down(m, a, t, path)
}

/// Where the reverse edges show parents only, the current ancestors of a
/// node, as the search along the reverse edges finds them, are the nodes
/// from which a path along the child edges leads down to it.
pub proof fn law_ancestors_over_child_edges(m: Graph, counters: Seq<u32>, t: Sym, a: Sym)
    requires
        graph_wf(m, counters),
        preds_sound(m),
    ensures
        reachable(m, Map::empty(), false, t, Seq::empty(), a) <==> leads_down(m, a, t),
{
    let none = Map::<Sym, NodeView>::empty();
    if reachable(m, none, false, t, Seq::empty(), a) {
        let walk = choose|walk: Seq<Sym>| #[trigger]
            is_walk(m, none, false, t, Seq::empty(), walk) && walk.last() == a;
        let k = walk.len() as int;
        let path = Seq::new(
            (k + 1) as nat,
            |i: int|
                if i < k {
                    walk[k - 1 - i]
                } else {
                    t
                },
        );
        assert forall|i: int| 0 <= i < path.len() - 1 implies is_latest(m, #[trigger] path[i])
            && m[path[i]].succs().contains(path[i + 1]) by {
            let at = k - 1 - i;
            if at == 0 {
                assert(step(m, none, false, t, walk[0]));
                assert(m[t].preds.contains(walk[0]));
            } else {
                assert(step(m, none, false, walk[at - 1], walk[at - 1 + 1]));
                assert(m[walk[at - 1]].preds.contains(walk[at]));
            }
        }
        assert(is_path_down(m, a, t, path));
    }
    if leads_down(m, a, t) {
        let path = choose|path: Seq<Sym>| #[trigger] is_path_down(m, a, t, path);
        let k = path.len() - 1;
        let walk = Seq::new(k as nat, |i: int| path[k - 1 - i]);
        assert forall|i: int| 0 <= i < k implies m.contains_key(#[trigger] path[i + 1])
            && m[path[i + 1]].preds.contains(path[i]) by {
            assert(is_latest(m, path[i]));
            assert(record_ok(m, counters, path[i]));
            let j = choose|j: int|
                0 <= j < m[path[i]].succs().len() && m[path[i]].succs()[j] == path[i + 1];
            assert(m.contains_key(m[path[i]].succs()[j]));
        }
        assert(step(m, none, false, t, walk[0])) by {
            assert(m.contains_key(path[k - 1 + 1]));
            assert(is_latest(m, path[k - 1]));
        }
        assert forall|i: int| 0 <= i < walk.len() - 1 implies step(
            m,
            none,
            false,
            #[trigger] walk[i],
            walk[i + 1],
        ) by {
            let at = k - 1 - i;
            assert(m.contains_key(path[at - 1 + 1]));
            assert(is_latest(m, path[at - 1]));
        }
        assert(is_walk(m, none, false, t, Seq::empty(), walk));
        assert(walk.last() == a);
    }
}

/// After a change of a node has been carried through eagerly, every
/// current node from which a walk along the child edges led to the changed
/// node has a new version, and no current node names as a child the old
/// version of the changed node or of any node that got a new version.
pub proof fn law_ancestor_completeness(
    m: Graph,
    counters: Seq<u32>,
    payload: NodeView,
    olds: Seq<Sym>,
    news: Seq<Sym>,
    m2: Graph,
    counters2: Seq<u32>,
)
    requires
        graph_wf(m, counters),
        eager_step(m, counters, payload, olds, news, m2, counters2),
    ensures
        m2[latest(m, payload.sym)].next is Some,
        forall|a: Sym|
            is_latest(m, a) && #[trigger] reachable(
                m,
                Map::empty(),
                true,
                a,
                Seq::empty(),
                latest(m, payload.sym),
            ) ==> m2[a].next is Some,
        forall|k: Sym|
            #[trigger] is_latest(m2, k) ==> !m2[k].succs().contains(latest(m, payload.sym)),
        forall|k: Sym, a: Sym|
            is_latest(m2, k) && olds.contains(a) ==> !(#[trigger] m2[k].succs().contains(a)),
{
    let none = Map::<Sym, NodeView>::empty();
    let t = latest(m, payload.sym);
    let repl = none.insert(t, payload);
    lemma_got_next(m, olds, news, repl, false, t);
    assert forall|a: Sym|
        is_latest(m, a) && #[trigger] reachable(m, none, true, a, Seq::empty(), t) implies m2[a].next
        is Some by {
        let walk = choose|walk: Seq<Sym>| #[trigger]
            is_walk(m, none, true, a, Seq::empty(), walk) && walk.last() == t;
        lemma_walk_down_is_walk_up(m, a, t, walk);
        assert(olds.contains(a));
        lemma_got_next(m, olds, news, repl, false, a);
    }
    assert forall|k: Sym, a: Sym| is_latest(m2, k) && olds.contains(a) implies !(
    #[trigger] m2[k].succs().contains(a)) by {
        if m2[k].succs().contains(a) {
            if news.contains(k) {
                lemma_new_names_no_old(m, olds, news, repl, false, news.index_of(k), a);
            } else {
                assert(m.contains_key(k));
                if olds.contains(k) {
                    lemma_got_next(m, olds, news, repl, false, k);
                } else {
                    assert(m2[k].node == m[k].node);
                    assert(m2[k].next == m[k].next);
                    let at = olds.index_of(a);
                    assert(olds[at] == a);
                    assert(is_latest(m, olds[at]));
                    assert(m[k].succs().contains(a));
                    assert(m[a].preds.contains(k));
                    assert(step(m, none, false, a, k));
                    if a == t {
                        let up = seq![k];
                        assert(is_walk(m, none, false, t, Seq::empty(), up));
                        assert(up.last() == k);
                    } else {
                        assert(seq![a][0] == a);
                        lemma_reach_grows(m, none, false, t, Seq::empty(), seq![a], a, k);
                    }
                    assert(reachable(m, none, false, t, Seq::empty(), k));
                }
            }
        }
    }
    assert(olds.contains(t));
}

/// A node that the step gives a new version points to it afterwards.
pub proof fn lemma_got_next(
    m: Graph,
    olds: Seq<Sym>,
    news: Seq<Sym>,
    repl: Map<Sym, NodeView>,
    staged: bool,
    a: Sym,
)
    requires
        versionable(m, olds, news, repl),
        olds.contains(a),
    ensures
        versioned(m, olds, news, repl, staged).contains_key(a),
        versioned(m, olds, news, repl, staged)[a].next == Some(news[olds.index_of(a)]),
{
    let i = olds.index_of(a);
    assert(olds[i] == a);
    assert(is_latest(m, olds[i]));
    if news.contains(a) {
        let j = choose|j: int| 0 <= j < news.len() && news[j] == a;
        assert(!m.contains_key(news[j]));
    }
}

/// No new version names a node that got a new version.
pub proof fn lemma_new_names_no_old(
    m: Graph,
    olds: Seq<Sym>,
    news: Seq<Sym>,
    repl: Map<Sym, NodeView>,
    staged: bool,
    i: int,
    x: Sym,
)
    requires
        versionable(m, olds, news, repl),
        0 <= i < news.len(),
        olds.contains(x),
    ensures
        !versioned(m, olds, news, repl, staged)[news[i]].succs().contains(x),
{
    let m2 = versioned(m, olds, news, repl, staged);
    lemma_index_of(news, i);
    let old = olds[i];
    let base = if repl.contains_key(old) {
        repl[old]
    } else {
        m[old].node
    };
    let link = |c: Sym| linked(m, olds, news, staged, c);
    lemma_children_relink(base.with_sym(news[i]).fields, link);
    let kids = m2[news[i]].succs();
    assert(kids == base.succs().map_values(link));
    if kids.contains(x) {
        let j = choose|j: int| 0 <= j < kids.len() && kids[j] == x;
        let c = if staged {
            latest(m, base.succs()[j])
        } else {
            base.succs()[j]
        };
        assert(x == renamed(olds, news, c));
        if olds.contains(c) {
            let at = olds.index_of(c);
            assert(olds[at] == c);
            let xa = olds.index_of(x);
            assert(olds[xa] == x);
            assert(is_latest(m, olds[xa]));
            assert(!m.contains_key(news[at]));
        }
    }
}

/// A commit gives new versions to the current versions of the changed
/// nodes and to every current node from which a walk along the child edges
/// leads to one of these, and to no other node: one symbol is minted for
/// each new version, and every other record keeps its payload and its
/// place in the chain of versions. Its reverse edges stay in front, and
/// behind them stand only new versions that name it as a child.
/// Afterwards no current node names a node that got a new version.
pub proof fn law_batching(
    m: Graph,
    counters: Seq<u32>,
    changes: Seq<(Sym, NodeView)>,
    olds: Seq<Sym>,
    news: Seq<Sym>,
    m2: Graph,
    counters2: Seq<u32>,
)
    requires
        graph_wf(m, counters),
        staged_step(m, counters, changes, olds, news, m2, counters2),
    ensures
        forall|i: int|
            0 <= i < changes.len() ==> m2[latest(m, (#[trigger] changes[i]).0)].next is Some,
        forall|i: int, a: Sym|
            0 <= i < changes.len() && is_latest(m, a) && #[trigger] reachable(
                m,
                Map::empty(),
                true,
                a,
                Seq::empty(),
                latest(m, changes[i].0),
            ) ==> m2[a].next is Some,
        forall|x: Sym|
            m.contains_key(x) && !back_from(m, staged_keys(changes), x) ==> {
                &&& (#[trigger] m2[x]).node == m[x].node
                &&& m2[x].next == m[x].next
                &&& m2[x].prev == m[x].prev
                &&& m[x].preds.len() <= m2[x].preds.len()
                &&& m2[x].preds.take(m[x].preds.len() as int) == m[x].preds
                &&& forall|j: int|
                    m[x].preds.len() <= j < m2[x].preds.len() ==> news.contains(
                        #[trigger] m2[x].preds[j],
                    ) && m2[m2[x].preds[j]].succs().contains(x)
            },
        forall|x: Sym|
            m2.contains_key(x) <==> (m.contains_key(x) || news.contains(x)),
        news.len() == olds.len(),
        forall|ty: int|
            0 <= ty < counters.len() ==> #[trigger] counters2[ty] == counters[ty] + count_ty(
                olds,
                ty,
            ),
        forall|k: Sym, a: Sym|
            is_latest(m2, k) && olds.contains(a) ==> !(#[trigger] m2[k].succs().contains(a)),
{
    let none = Map::<Sym, NodeView>::empty();
    let keys = staged_keys(changes);
    let repl = payloads(m, changes);
    let g = succeeded(m, olds, news, repl, true);
    assert forall|k: Sym, a: Sym| is_latest(m2, k) && olds.contains(a) implies !(
    #[trigger] m2[k].succs().contains(a)) by {
        if m2[k].succs().contains(a) {
            if news.contains(k) {
                lemma_new_names_no_old(m, olds, news, repl, true, news.index_of(k), a);
            } else {
                assert(m.contains_key(k));
                if olds.contains(k) {
                    lemma_got_next(m, olds, news, repl, true, k);
                } else {
                    assert(m2[k].node == m[k].node);
                    assert(m2[k].next == m[k].next);
                    assert(m[k].succs().contains(a));
                    assert(m[a].preds.contains(k));
                    let at = olds.index_of(a);
                    assert(olds[at] == a);
                    assert(is_latest(m, olds[at]));
                    assert(step(m, none, false, a, k));
                    assert(back_from(m, keys, a));
                    let i = choose|i: int|
                        0 <= i < keys.len() && (a == latest(m, #[trigger] keys[i]) || reachable(
                            m,
                            none,
                            false,
                            latest(m, keys[i]),
                            Seq::empty(),
                            a,
                        ));
                    let t = latest(m, keys[i]);
                    if a == t {
                        let up = seq![k];
                        assert(is_walk(m, none, false, t, Seq::empty(), up));
                        assert(up.last() == k);
                    } else {
                        assert(seq![a][0] == a);
                        lemma_reach_grows(m, none, false, t, Seq::empty(), seq![a], a, k);
                    }
                    assert(reachable(m, none, false, t, Seq::empty(), k));
                    assert(back_from(m, keys, k));
                }
            }
        }
    }
    assert forall|i: int| 0 <= i < changes.len() implies m2[latest(
        m,
        (#[trigger] changes[i]).0,
    )].next is Some by {
        assert(keys[i] == changes[i].0);
        assert(back_from(m, keys, latest(m, keys[i])));
        lemma_got_next(m, olds, news, repl, true, latest(m, keys[i]));
    }
    assert forall|i: int, a: Sym|
        0 <= i < changes.len() && is_latest(m, a) && #[trigger] reachable(
            m,
            none,
            true,
            a,
            Seq::empty(),
            latest(m, changes[i].0),
        ) implies m2[a].next is Some by {
        let t = latest(m, changes[i].0);
        let walk = choose|walk: Seq<Sym>| #[trigger]
            is_walk(m, none, true, a, Seq::empty(), walk) && walk.last() == t;
        lemma_walk_down_is_walk_up(m, a, t, walk);
        assert(keys[i] == changes[i].0);
        assert(back_from(m, keys, a));
        lemma_got_next(m, olds, news, repl, true, a);
    }
    assert forall|x: Sym| m.contains_key(x) && !back_from(m, keys, x) implies ({
        &&& (#[trigger] m2[x]).node == m[x].node
        &&& m2[x].next == m[x].next
        &&& m2[x].prev == m[x].prev
        &&& m[x].preds.len() <= m2[x].preds.len()
        &&& m2[x].preds.take(m[x].preds.len() as int) == m[x].preds
        &&& forall|j: int|
            m[x].preds.len() <= j < m2[x].preds.len() ==> news.contains(#[trigger] m2[x].preds[j])
                && m2[m2[x].preds[j]].succs().contains(x)
    }) by {
        if news.contains(x) {
            let j = choose|j: int| 0 <= j < news.len() && news[j] == x;
            assert(!m.contains_key(news[j]));
        }
        assert(g[x] == m[x]);
        let gained = missing_parents(g, news, x);
        lemma_missing_parents(g, news, x);
        assert(m2[x].preds == m[x].preds + gained);
        assert(m2[x].preds.take(m[x].preds.len() as int) =~= m[x].preds);
        assert forall|j: int| m[x].preds.len() <= j < m2[x].preds.len() implies news.contains(
            #[trigger] m2[x].preds[j],
        ) && m2[m2[x].preds[j]].succs().contains(x) by {
            let p = m2[x].preds[j];
            assert(gained[j - m[x].preds.len()] == p);
            assert(gained.contains(p));
        }
    }
    assert forall|ty: int| 0 <= ty < counters.len() implies #[trigger] counters2[ty]
        == counters[ty] + count_ty(olds, ty) by {
        if count_ty(olds, ty) > 0 {
        }
    }
}

/// A commit that finds nothing staged below its root changes nothing and
/// mints nothing.
pub proof fn law_commit_without_changes(
    m: Graph,
    counters: Seq<u32>,
    olds: Seq<Sym>,
    news: Seq<Sym>,
    m2: Graph,
    counters2: Seq<u32>,
)
    requires
        staged_step(m, counters, Seq::empty(), olds, news, m2, counters2),
    ensures
        olds.len() == 0,
        news.len() == 0,
        m2 == m,
        counters2 == counters,
{
    let keys = staged_keys(Seq::<(Sym, NodeView)>::empty());
    if olds.len() > 0 {
        assert(olds.contains(olds[0]));
        assert(back_from(m, keys, olds[0]));
    }
    assert(m2 =~= m);
    assert(counters2 =~= counters);
}

} // verus!
