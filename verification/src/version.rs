//! The versioning step: a set of current nodes gets new versions, the old
//! versions point to them, and the edges of the new versions are rewritten.

use crate::error::RxError;
use crate::graph::{
    graph_wf, is_latest, latest, lemma_latest_props, record_ok, Graph, WorkingGraph,
};
use crate::node::{relink_fields, Field, Node, NodeView, WorkAreaNode, WorkAreaNodeView};
use crate::node::lemma_children_relink;
use crate::staged::{staged_map, StagedNodes};
use crate::sym::Sym;
use crate::symset::SymSet;
use crate::syms::Syms;
use crate::topo::{children_first, order_members, TopoDirection};
use vstd::pervasive::unreached;
use vstd::prelude::*;

verus! {

/// The number of symbols of type `ty` in a list.
pub open spec fn count_ty(xs: Seq<Sym>, ty: int) -> nat
    decreases xs.len(),
{
    if xs.len() == 0 {
        0
    } else {
        count_ty(xs.drop_last(), ty) + (if xs.last().ty == ty {
            1nat
        } else {
            0nat
        })
    }
}

pub proof fn lemma_count_ty_take(xs: Seq<Sym>, ty: int, n: int)
    requires
        0 <= n <= xs.len(),
    ensures
        count_ty(xs.take(n), ty) <= count_ty(xs, ty),
        n < xs.len() && xs[n].ty == ty ==> count_ty(xs.take(n), ty) < count_ty(xs, ty),
    decreases xs.len() - n,
{
    if n == xs.len() {
        assert(xs.take(n) =~= xs);
    } else {
        lemma_count_ty_take(xs, ty, n + 1);
        assert(xs.take(n + 1).drop_last() =~= xs.take(n));
        assert(xs.take(n + 1).last() == xs[n]);
    }
}

/// A type that is counted is the type of a symbol of the list.
pub proof fn lemma_count_ty_typed(xs: Seq<Sym>, ty: int)
    requires
        count_ty(xs, ty) > 0,
    ensures
        exists|i: int| 0 <= i < xs.len() && (#[trigger] xs[i]).ty == ty,
    decreases xs.len(),
{
    if xs.last().ty == ty {
        assert(xs[xs.len() - 1].ty == ty);
    } else {
        lemma_count_ty_typed(xs.drop_last(), ty);
        let i = choose|i: int| 0 <= i < xs.drop_last().len() && (#[trigger] xs.drop_last()[i]).ty == ty;
        assert(xs[i].ty == ty);
    }
}

/// Whether every counter can mint the symbols that new versions of `olds`
/// need.
pub open spec fn room_for(counters: Seq<u32>, olds: Seq<Sym>) -> bool {
    forall|ty: int|
        0 <= ty < counters.len() && #[trigger] count_ty(olds, ty) > 0 ==> counters[ty] + count_ty(
            olds,
            ty,
        ) <= u32::MAX
}

/// The symbols that new versions of `olds` get: each of the type of its old
/// version, with the serial numbers of a type handed out in the order of
/// the list.
pub open spec fn minted(counters: Seq<u32>, olds: Seq<Sym>, news: Seq<Sym>) -> bool {
    &&& news.len() == olds.len()
    &&& forall|i: int|
        0 <= i < olds.len() ==> #[trigger] news[i] == (Sym {
            ty: olds[i].ty,
            serial: (counters[olds[i].ty as int] + count_ty(olds.take(i), olds[i].ty as int)) as u32,
        })
}

/// Taking one symbol out of a list lowers the count of its type by one.
pub proof fn lemma_count_ty_remove(xs: Seq<Sym>, ty: int, j: int)
    requires
        0 <= j < xs.len(),
    ensures
        count_ty(xs, ty) == count_ty(xs.remove(j), ty) + (if xs[j].ty == ty {
            1nat
        } else {
            0nat
        }),
    decreases xs.len(),
{
    if j == xs.len() - 1 {
        assert(xs.remove(j) =~= xs.drop_last());
    } else {
        lemma_count_ty_remove(xs.drop_last(), ty, j);
        assert(xs.remove(j).drop_last() =~= xs.drop_last().remove(j));
        assert(xs.remove(j).last() == xs.last());
    }
}

/// Two lists without repetition that hold the same symbols hold as many of
/// each type.
pub proof fn lemma_count_ty_same_set(xs: Seq<Sym>, ys: Seq<Sym>, ty: int)
    requires
        xs.no_duplicates(),
        ys.no_duplicates(),
        forall|x: Sym| xs.contains(x) <==> ys.contains(x),
    ensures
        count_ty(xs, ty) == count_ty(ys, ty),
    decreases xs.len(),
{
    if xs.len() == 0 {
        if ys.len() > 0 {
            assert(ys.contains(ys[0]));
        }
    } else {
        let last = xs.last();
        assert(xs[xs.len() - 1] == last);
        assert(xs.contains(last));
        let j = ys.index_of(last);
        assert(ys[j] == last);
        let xs2 = xs.drop_last();
        let ys2 = ys.remove(j);
        assert forall|a: int, b: int|
            0 <= a < ys2.len() && 0 <= b < ys2.len() && a != b implies ys2[a] != ys2[b] by {
            let a1 = if a < j {
                a
            } else {
                a + 1
            };
            let b1 = if b < j {
                b
            } else {
                b + 1
            };
            assert(ys[a1] != ys[b1]);
        }
        assert forall|x: Sym| xs2.contains(x) <==> ys2.contains(x) by {
            if xs2.contains(x) {
                let i = choose|i: int| 0 <= i < xs2.len() && xs2[i] == x;
                assert(xs[i] == x);
                assert(xs.contains(x));
                assert(x != last);
                let k = choose|k: int| 0 <= k < ys.len() && ys[k] == x;
                let k2 = if k < j {
                    k
                } else {
                    k - 1
                };
                assert(ys2[k2] == x);
            }
            if ys2.contains(x) {
                let k = choose|k: int| 0 <= k < ys2.len() && ys2[k] == x;
                let k1 = if k < j {
                    k
                } else {
                    k + 1
                };
                assert(ys[k1] == x);
                assert(ys.contains(x));
                assert(x != last);
                let i = choose|i: int| 0 <= i < xs.len() && xs[i] == x;
                assert(xs2[i] == x);
            }
        }
        lemma_count_ty_remove(ys, ty, j);
        lemma_count_ty_same_set(xs2, ys2, ty);
    }
}

/// Whether the counters have room for new versions of a set of nodes does
/// not depend on the order in which the nodes are listed.
pub proof fn law_room_is_order_free(counters: Seq<u32>, xs: Seq<Sym>, ys: Seq<Sym>)
    requires
        xs.no_duplicates(),
        ys.no_duplicates(),
        forall|x: Sym| xs.contains(x) <==> ys.contains(x),
    ensures
        room_for(counters, xs) == room_for(counters, ys),
{
    assert forall|ty: int| count_ty(xs, ty) == count_ty(ys, ty) by {
        lemma_count_ty_same_set(xs, ys, ty);
    }
}

/// Whether every symbol of the list is beyond the counter of its type.
pub open spec fn beyond(counters: Seq<u32>, news: Seq<Sym>) -> bool {
    forall|i: int|
        0 <= i < news.len() ==> ((#[trigger] news[i]).ty as int) < counters.len() && news[i].serial
            >= counters[news[i].ty as int]
}

/// The counters after the symbols were minted.
pub open spec fn advanced(counters: Seq<u32>, olds: Seq<Sym>) -> Seq<u32> {
    Seq::new(counters.len(), |ty: int| (counters[ty] + count_ty(olds, ty)) as u32)
}

/// The new version of `x`, for a node that gets one; else `x`.
pub open spec fn renamed(olds: Seq<Sym>, news: Seq<Sym>, x: Sym) -> Sym {
    if olds.contains(x) {
        news[olds.index_of(x)]
    } else {
        x
    }
}

/// What a symbol held by a new version is rewritten to. Without staging a
/// node that gets a new version is replaced by it and every other symbol
/// stays. With staging every symbol is first resolved to its current
/// version.
pub open spec fn linked(m: Graph, olds: Seq<Sym>, news: Seq<Sym>, staged: bool, x: Sym) -> Sym {
    renamed(
        olds,
        news,
        if staged {
            latest(m, x)
        } else {
            x
        },
    )
}

/// The record of the new version of `olds[i]`: the payload staged for it in
/// `repl`, or else a copy of the old payload, under the new symbol and with
/// the edges rewritten; the reverse edges of the old version, rewritten.
pub open spec fn successor(
    m: Graph,
    olds: Seq<Sym>,
    news: Seq<Sym>,
    repl: Map<Sym, NodeView>,
    staged: bool,
    i: int,
) -> WorkAreaNodeView {
    let old = olds[i];
    let base = if repl.contains_key(old) {
        repl[old]
    } else {
        m[old].node
    };
    let link = |x: Sym| linked(m, olds, news, staged, x);
    WorkAreaNodeView {
        next: None,
        prev: if staged {
            Some(old)
        } else {
            None
        },
        preds: m[old].preds.map_values(link),
        node: base.with_sym(news[i]).relinked(link),
    }
}

/// The graph after the new versions were filed: every node of `olds` points
/// to its new version, the new versions stand under their symbols, and
/// every other record is as it was.
pub open spec fn succeeded(
    m: Graph,
    olds: Seq<Sym>,
    news: Seq<Sym>,
    repl: Map<Sym, NodeView>,
    staged: bool,
) -> Graph {
    Map::new(
        |k: Sym| m.contains_key(k) || news.contains(k),
        |k: Sym|
            if news.contains(k) {
                successor(m, olds, news, repl, staged, news.index_of(k))
            } else if olds.contains(k) {
                WorkAreaNodeView { next: Some(news[olds.index_of(k)]), ..m[k] }
            } else {
                m[k]
            },
    )
}

/// The members of `news` that name `k` as a child and that `k` does not
/// list among its reverse edges, in the order of `news`.
pub open spec fn missing_parents(g: Graph, news: Seq<Sym>, k: Sym) -> Seq<Sym>
    decreases news.len(),
{
    if news.len() == 0 {
        Seq::empty()
    } else {
        let before = missing_parents(g, news.drop_last(), k);
        let p = news.last();
        if g[p].succs().contains(k) && !g[k].preds.contains(p) {
            before.push(p)
        } else {
            before
        }
    }
}

/// The graph after the reverse edges were completed for `news`: every node
/// lists, behind the reverse edges it had, the members of `news` that name
/// it as a child and that it did not list.
pub open spec fn tied(g: Graph, news: Seq<Sym>) -> Graph {
    Map::new(
        |k: Sym| g.contains_key(k),
        |k: Sym| WorkAreaNodeView { preds: g[k].preds + missing_parents(g, news, k), ..g[k] },
    )
}

/// The graph after the versioning step: every node of `olds` points to its
/// new version, the new versions stand under their symbols, and every child
/// of a new version lists it among its reverse edges. Nothing else changes.
pub open spec fn versioned(
    m: Graph,
    olds: Seq<Sym>,
    news: Seq<Sym>,
    repl: Map<Sym, NodeView>,
    staged: bool,
) -> Graph {
    tied(succeeded(m, olds, news, repl, staged), news)
}

/// What is missing among the reverse edges of `k` are the members of `news`
/// that name `k` and that `k` does not list.
pub proof fn lemma_missing_parents(g: Graph, news: Seq<Sym>, k: Sym)
    ensures
        forall|x: Sym| #[trigger]
            missing_parents(g, news, k).contains(x) <==> (news.contains(x) && g[x].succs().contains(
                k,
            ) && !g[k].preds.contains(x)),
    decreases news.len(),
{
    let out = missing_parents(g, news, k);
    if news.len() == 0 {
    } else {
        let init = news.drop_last();
        let before = missing_parents(g, init, k);
        let p = news.last();
        lemma_missing_parents(g, init, k);
        let takes = g[p].succs().contains(k) && !g[k].preds.contains(p);
        assert(out == if takes {
            before.push(p)
        } else {
            before
        });
        assert forall|x: Sym| #[trigger]
            out.contains(x) <==> (news.contains(x) && g[x].succs().contains(k) && !g[k].preds.contains(
                x,
            )) by {
            if out.contains(x) {
                let i = choose|i: int| 0 <= i < out.len() && out[i] == x;
                if i < before.len() {
                    assert(before[i] == x);
                    assert(before.contains(x));
                    let j = choose|j: int| 0 <= j < init.len() && init[j] == x;
                    assert(news[j] == x);
                } else {
                    assert(takes);
                    assert(x == p);
                    assert(news[news.len() - 1] == x);
                }
            }
            if news.contains(x) && g[x].succs().contains(k) && !g[k].preds.contains(x) {
                let j = choose|j: int| 0 <= j < news.len() && news[j] == x;
                if j < init.len() {
                    assert(init[j] == x);
                    assert(init.contains(x));
                    assert(before.contains(x));
                    let i = choose|i: int| 0 <= i < before.len() && before[i] == x;
                    assert(out[i] == x);
                } else {
                    assert(x == p);
                    assert(out[out.len() - 1] == x);
                }
            }
        }
    }
}

/// What the versioning step asks of its input: the nodes are distinct,
/// recorded and current, their new symbols are distinct, unrecorded and
/// later symbols of the same types, and the staged payloads name recorded
/// nodes only.
pub open spec fn versionable(
    m: Graph,
    olds: Seq<Sym>,
    news: Seq<Sym>,
    repl: Map<Sym, NodeView>,
) -> bool {
    &&& olds.no_duplicates()
    &&& news.no_duplicates()
    &&& news.len() == olds.len()
    &&& forall|i: int| 0 <= i < olds.len() ==> is_latest(m, #[trigger] olds[i])
    &&& forall|i: int| 0 <= i < news.len() ==> !m.contains_key(#[trigger] news[i])
    &&& forall|i: int|
        0 <= i < olds.len() ==> (#[trigger] news[i]).ty == olds[i].ty && news[i].serial
            > olds[i].serial
    &&& forall|i: int, j: int|
        0 <= i < olds.len() && repl.contains_key(#[trigger] olds[i]) && 0 <= j
            < repl[olds[i]].succs().len() ==> m.contains_key(#[trigger] repl[olds[i]].succs()[j])
}

/// Whether the new versions that the step would make cannot be put in an
/// order in which every child comes before its parents.
pub open spec fn unorderable(
    m: Graph,
    counters: Seq<u32>,
    olds: Seq<Sym>,
    repl: Map<Sym, NodeView>,
    staged: bool,
) -> bool {
    exists|news: Seq<Sym>| #[trigger]
        minted(counters, olds, news) && forall|o: Seq<Sym>|
            !children_first(versioned(m, olds, news, repl, staged), news, o)
}

/// The symbols that new versions get are fixed by the counters and the
/// order of the nodes.
pub proof fn lemma_minted_once(counters: Seq<u32>, olds: Seq<Sym>, a: Seq<Sym>, b: Seq<Sym>)
    requires
        minted(counters, olds, a),
        minted(counters, olds, b),
    ensures
        a == b,
{
    assert(a =~= b);
}

/// The position of an item in a list without repetition.
pub proof fn lemma_index_of(xs: Seq<Sym>, i: int)
    requires
        xs.no_duplicates(),
        0 <= i < xs.len(),
    ensures
        xs.contains(xs[i]),
        xs.index_of(xs[i]) == i,
{
    let j = xs.index_of(xs[i]);
    assert(xs[j] == xs[i]);
}

/// What a symbol is rewritten to has a record after the step, if the symbol
/// had one before.
pub proof fn lemma_linked_recorded(
    m: Graph,
    counters: Seq<u32>,
    olds: Seq<Sym>,
    news: Seq<Sym>,
    repl: Map<Sym, NodeView>,
    staged: bool,
    x: Sym,
)
    requires
        graph_wf(m, counters),
        versionable(m, olds, news, repl),
        m.contains_key(x),
    ensures
        versioned(m, olds, news, repl, staged).contains_key(linked(m, olds, news, staged, x)),
{
    let y = if staged {
        latest(m, x)
    } else {
        x
    };
    lemma_latest_props(m, counters, x);
    if olds.contains(y) {
        let i = olds.index_of(y);
        assert(olds[i] == y);
        assert(news.contains(news[i]));
    }
}

/// After the new versions were filed every record is in order, under
/// counters that bound the new symbols.
pub proof fn lemma_succeeded_ok(
    m: Graph,
    counters: Seq<u32>,
    after: Seq<u32>,
    olds: Seq<Sym>,
    news: Seq<Sym>,
    repl: Map<Sym, NodeView>,
    staged: bool,
)
    requires
        graph_wf(m, counters),
        versionable(m, olds, news, repl),
        after.len() == counters.len(),
        forall|ty: int| 0 <= ty < counters.len() ==> counters[ty] <= #[trigger] after[ty],
        forall|i: int| 0 <= i < news.len() ==> (#[trigger] news[i]).serial < after[news[i].ty as int],
    ensures
        succeeded(m, olds, news, repl, staged).dom().finite(),
        forall|k: Sym| #[trigger]
            succeeded(m, olds, news, repl, staged).contains_key(k) ==> record_ok(
                succeeded(m, olds, news, repl, staged),
                after,
                k,
            ),
{
    let out = succeeded(m, olds, news, repl, staged);
    let link = |x: Sym| linked(m, olds, news, staged, x);
    assert(out.dom() =~= m.dom().union(news.to_set()));
    assert(news.to_set().finite()) by {
        vstd::seq_lib::seq_to_set_is_finite(news);
    }
    assert forall|k: Sym| #[trigger] out.contains_key(k) implies record_ok(out, after, k) by {
        if news.contains(k) {
            let i = news.index_of(k);
            assert(news[i] == k);
            let old = olds[i];
            assert(is_latest(m, olds[i]));
            assert(record_ok(m, counters, old));
            let r = out[k];
            let base = if repl.contains_key(old) {
                repl[old]
            } else {
                m[old].node
            };
            assert forall|t: int| 0 <= t < r.preds.len() implies out.contains_key(
                #[trigger] r.preds[t],
            ) by {
                assert(m.contains_key(m[old].preds[t]));
                lemma_linked_recorded(m, counters, olds, news, repl, staged, m[old].preds[t]);
                assert(r.preds[t] == link(m[old].preds[t]));
            }
            lemma_children_relink(base.with_sym(k).fields, link);
            assert forall|t: int| 0 <= t < r.succs().len() implies out.contains_key(
                #[trigger] r.succs()[t],
            ) by {
                let c = base.succs()[t];
                if repl.contains_key(old) {
                    assert(m.contains_key(repl[olds[i]].succs()[t]));
                } else {
                    assert(m.contains_key(m[old].succs()[t]));
                }
                lemma_linked_recorded(m, counters, olds, news, repl, staged, c);
            }
        } else {
            assert(m.contains_key(k));
            assert(record_ok(m, counters, k));
            let r = out[k];
            if olds.contains(k) {
                let i = olds.index_of(k);
                assert(olds[i] == k);
                assert(news.contains(news[i]));
            }
            assert forall|t: int| 0 <= t < r.preds.len() implies out.contains_key(
                #[trigger] r.preds[t],
            ) by {
                assert(m.contains_key(m[k].preds[t]));
            }
            assert forall|t: int| 0 <= t < r.succs().len() implies out.contains_key(
                #[trigger] r.succs()[t],
            ) by {
                assert(m.contains_key(m[k].succs()[t]));
            }
        }
    }
}

/// A list put behind another holds what either holds.
pub proof fn lemma_contains_add(a: Seq<Sym>, b: Seq<Sym>, x: Sym)
    ensures
        (a + b).contains(x) <==> (a.contains(x) || b.contains(x)),
{
    let ab = a + b;
    if ab.contains(x) {
        let i = choose|i: int| 0 <= i < ab.len() && ab[i] == x;
        if i < a.len() {
            assert(a[i] == x);
        } else {
            assert(b[i - a.len()] == x);
        }
    }
    if a.contains(x) {
        let i = choose|i: int| 0 <= i < a.len() && a[i] == x;
        assert(ab[i] == x);
    }
    if b.contains(x) {
        let i = choose|i: int| 0 <= i < b.len() && b[i] == x;
        assert(ab[i + a.len()] == x);
    }
}

/// The versioning step keeps the graph's invariant, under counters that
/// bound the new symbols.
pub proof fn lemma_versioned_wf(
    m: Graph,
    counters: Seq<u32>,
    after: Seq<u32>,
    olds: Seq<Sym>,
    news: Seq<Sym>,
    repl: Map<Sym, NodeView>,
    staged: bool,
)
    requires
        graph_wf(m, counters),
        versionable(m, olds, news, repl),
        after.len() == counters.len(),
        forall|ty: int| 0 <= ty < counters.len() ==> counters[ty] <= #[trigger] after[ty],
        forall|i: int| 0 <= i < news.len() ==> (#[trigger] news[i]).serial < after[news[i].ty as int],
    ensures
        graph_wf(versioned(m, olds, news, repl, staged), after),
{
    let g = succeeded(m, olds, news, repl, staged);
    let out = versioned(m, olds, news, repl, staged);
    lemma_succeeded_ok(m, counters, after, olds, news, repl, staged);
    assert(out.dom() =~= g.dom());
    assert forall|k: Sym| #[trigger] out.contains_key(k) implies record_ok(out, after, k) by {
        assert(g.contains_key(k));
        assert(record_ok(g, after, k));
        let r = out[k];
        let gained = missing_parents(g, news, k);
        lemma_missing_parents(g, news, k);
        assert forall|t: int| 0 <= t < r.preds.len() implies out.contains_key(
            #[trigger] r.preds[t],
        ) by {
            if t < g[k].preds.len() {
                assert(g.contains_key(g[k].preds[t]));
            } else {
                assert(gained[t - g[k].preds.len()] == r.preds[t]);
                assert(gained.contains(r.preds[t]));
            }
        }
        assert forall|t: int| 0 <= t < r.succs().len() implies out.contains_key(
            #[trigger] r.succs()[t],
        ) by {
            assert(g.contains_key(g[k].succs()[t]));
        }
    }
    assert forall|p: Sym, c: Sym|
        is_latest(out, p) && #[trigger] out[p].succs().contains(c) implies out[c].preds.contains(
        p,
    ) by {
        lemma_missing_parents(g, news, c);
        lemma_contains_add(g[c].preds, missing_parents(g, news, c), p);
        if !news.contains(p) {
            assert(m.contains_key(p));
            assert(record_ok(m, counters, p));
            if olds.contains(p) {
                let i = olds.index_of(p);
                assert(olds[i] == p);
            }
            assert(g[p] == m[p]);
            let j = choose|j: int| 0 <= j < m[p].succs().len() && m[p].succs()[j] == c;
            assert(m.contains_key(m[p].succs()[j]));
            if news.contains(c) {
                let i = news.index_of(c);
                assert(news[i] == c);
                assert(!m.contains_key(news[i]));
            }
            assert(g[c].preds == m[c].preds);
            assert(is_latest(m, p));
            assert(m[p].succs().contains(c));
            assert(m[c].preds.contains(p));
        }
    }
}

/// The graph while the reverse edges are being completed: done for the
/// members of `news` before position `at`, and for the children in `done`
/// of the member at `at`.
pub open spec fn tied_part(g: Graph, news: Seq<Sym>, at: int, done: Seq<Sym>) -> Graph {
    Map::new(
        |k: Sym| g.contains_key(k),
        |k: Sym|
            WorkAreaNodeView {
                preds: g[k].preds + missing_parents(g, news.take(at), k) + (if done.contains(k)
                    && !g[k].preds.contains(news[at]) {
                    seq![news[at]]
                } else {
                    Seq::empty()
                }),
                ..g[k]
            },
    )
}

/// Before any child of the member at `at` was dealt with, the reverse edges
/// are complete for the members before it.
pub proof fn lemma_tied_part_start(g: Graph, news: Seq<Sym>, at: int)
    requires
        0 <= at < news.len(),
    ensures
        tied_part(g, news, at, Seq::empty()) == tied(g, news.take(at)),
{
    let a = tied_part(g, news, at, Seq::empty());
    let b = tied(g, news.take(at));
    assert forall|k: Sym| #[trigger] a.contains_key(k) implies a[k] == b[k] by {
        assert(a[k].preds =~= b[k].preds);
    }
    assert(a =~= b);
}

/// After every child of the member at `at` was dealt with, the reverse
/// edges are complete for it too.
pub proof fn lemma_tied_part_end(g: Graph, news: Seq<Sym>, at: int)
    requires
        0 <= at < news.len(),
    ensures
        tied_part(g, news, at, g[news[at]].succs()) == tied(g, news.take(at + 1)),
{
    let a = tied_part(g, news, at, g[news[at]].succs());
    let b = tied(g, news.take(at + 1));
    let now = news.take(at + 1);
    assert(now.drop_last() =~= news.take(at));
    assert(now.last() == news[at]);
    assert forall|k: Sym| #[trigger] a.contains_key(k) implies a[k] == b[k] by {
        assert(a[k].preds =~= b[k].preds);
    }
    assert(a =~= b);
}

/// Dealing with one more child `c` of the member at `at`: the member is
/// added to the reverse edges of `c` unless it stands there.
pub proof fn lemma_tied_part_step(g: Graph, news: Seq<Sym>, at: int, done: Seq<Sym>, c: Sym)
    requires
        0 <= at < news.len(),
        news.no_duplicates(),
        g.contains_key(c),
    ensures
        tied_part(g, news, at, done).contains_key(c),
        tied_part(g, news, at, done.push(c)) == (if tied_part(g, news, at, done)[c].preds.contains(
            news[at],
        ) {
            tied_part(g, news, at, done)
        } else {
            tied_part(g, news, at, done).insert(
                c,
                WorkAreaNodeView {
                    preds: tied_part(g, news, at, done)[c].preds.push(news[at]),
                    ..tied_part(g, news, at, done)[c]
                },
            )
        }),
{
    let cur = tied_part(g, news, at, done);
    let next = tied_part(g, news, at, done.push(c));
    let p = news[at];
    let had = g[c].preds;
    let gained = missing_parents(g, news.take(at), c);
    let extra = if done.contains(c) && !had.contains(p) {
        seq![p]
    } else {
        Seq::empty()
    };
    assert(cur[c].preds == had + gained + extra);
    lemma_missing_parents(g, news.take(at), c);
    assert(!gained.contains(p)) by {
        if news.take(at).contains(p) {
            let i = choose|i: int| 0 <= i < news.take(at).len() && news.take(at)[i] == p;
            assert(news[i] == news[at]);
        }
    }
    lemma_contains_add(had, gained, p);
    lemma_contains_add(had + gained, extra, p);
    if extra.len() > 0 {
        assert(extra[0] == p);
    }
    assert(cur[c].preds.contains(p) <==> (had.contains(p) || done.contains(c)));
    assert(done.push(c)[done.len() as int] == c);
    assert forall|k: Sym| k != c implies (done.push(c).contains(k) <==> done.contains(k)) by {
        if done.push(c).contains(k) {
            let i = choose|i: int| 0 <= i < done.push(c).len() && done.push(c)[i] == k;
            assert(done[i] == k);
        }
        if done.contains(k) {
            let i = choose|i: int| 0 <= i < done.len() && done[i] == k;
            assert(done.push(c)[i] == k);
        }
    }
    let want = if cur[c].preds.contains(p) {
        cur
    } else {
        cur.insert(c, WorkAreaNodeView { preds: cur[c].preds.push(p), ..cur[c] })
    };
    assert forall|k: Sym| #[trigger] next.contains_key(k) implies next[k] == want[k] by {
        assert(next[k].preds =~= want[k].preds);
    }
    assert(next =~= want);
}

impl WorkingGraph {
    /// Whether every counter can mint the symbols that new versions of
    /// `olds` need.
    pub fn has_room_for(&self, olds: &SymSet) -> (ok: bool)
        requires
            self.wf(),
            forall|i: int| 0 <= i < olds@.len() ==> self@.contains_key(#[trigger] olds@[i]),
        ensures
            ok == room_for(self.counters(), olds@),
    {
        let types: usize = self.types();
        let mut tally: Vec<usize> = Vec::new();
        let mut t: usize = 0;
        while t < types
            invariant
                t <= types,
                tally@.len() == t,
                forall|j: int| 0 <= j < t ==> #[trigger] tally@[j] == 0,
            decreases types - t,
        {
            tally.push(0);
            t += 1;
        }
        let n: usize = olds.len();
        let mut i: usize = 0;
        while i < n
            invariant
                self.wf(),
                types == self.counters().len(),
                n == olds@.len(),
                i <= n,
                tally@.len() == types,
                forall|j: int| 0 <= j < olds@.len() ==> self@.contains_key(#[trigger] olds@[j]),
                forall|ty: int|
                    0 <= ty < types ==> #[trigger] tally@[ty] == count_ty(olds@.take(i as int), ty),
                forall|ty: int| 0 <= ty < types ==> #[trigger] tally@[ty] <= i,
            decreases n - i,
        {
            match olds.get_index(i) {
                Some(s) => {
                    proof {
                        assert(self@.contains_key(olds@[i as int]));
                        assert(record_ok(self@, self.counters(), s));
                    }
                    let at: usize = s.ty as usize;
                    let seen: usize = tally[at];
                    tally.set(at, seen + 1);
                },
                None => {},
            }
            i += 1;
            proof {
                let now = olds@.take(i as int);
                assert(now.drop_last() =~= olds@.take(i - 1));
                assert(now.last() == olds@[i - 1]);
            }
        }
        proof {
            assert(olds@.take(n as int) =~= olds@);
        }
        let mut ok: bool = true;
        let mut t: usize = 0;
        while t < types
            invariant
                self.wf(),
                types == self.counters().len(),
                t <= types,
                tally@.len() == types,
                forall|ty: int| 0 <= ty < types ==> #[trigger] tally@[ty] == count_ty(olds@, ty),
                ok == (forall|ty: int|
                    0 <= ty < t && #[trigger] count_ty(olds@, ty) > 0 ==> self.counters()[ty]
                        + count_ty(olds@, ty) <= u32::MAX),
            decreases types - t,
        {
            let need: usize = tally[t];
            if need > 0 {
                proof {
                    // a counted type is the type of a recorded symbol
                    lemma_count_ty_typed(olds@, t as int);
                }
                let c: u32 = match self.counter(t as u32) {
                    Some(c) => c,
                    None => unreached(),
                };
                if need > u32::MAX as usize || c > u32::MAX - (need as u32) {
                    ok = false;
                }
            }
            t += 1;
        }
        ok
    }

    /// What a symbol held by a new version is rewritten to.
    fn link_of(&self, olds: &SymSet, news: &Vec<Sym>, staged: bool, x: Sym) -> (y: Sym)
        requires
            self.wf(),
            olds.wf(),
            news@.len() == olds@.len(),
        ensures
            y == linked(self@, olds@, news@, staged, x),
    {
        let r: Sym = if staged {
            self.latest(x)
        } else {
            x
        };
        match olds.get_index_of(r) {
            Some(i) => {
                proof {
                    lemma_index_of(olds@, i as int);
                }
                news[i]
            },
            None => r,
        }
    }

    /// The symbols that new versions of `olds` get, in the order of `olds`.
    /// No counter moves.
    pub(crate) fn plan_news(&self, olds: &SymSet) -> (news: Vec<Sym>)
        requires
            self.wf(),
            olds.wf(),
            forall|i: int| 0 <= i < olds@.len() ==> is_latest(self@, #[trigger] olds@[i]),
            room_for(self.counters(), olds@),
        ensures
            minted(self.counters(), olds@, news@),
    {
        let ghost c0 = self.counters();
        let types: usize = self.types();
        let mut tally: Vec<u32> = Vec::new();
        let mut t: usize = 0;
        while t < types
            invariant
                t <= types,
                tally@.len() == t,
                forall|j: int| 0 <= j < t ==> #[trigger] tally@[j] == 0,
            decreases types - t,
        {
            tally.push(0);
            t += 1;
        }
        let n: usize = olds.len();
        let mut news: Vec<Sym> = Vec::new();
        let mut i: usize = 0;
        while i < n
            invariant
                self.wf(),
                olds.wf(),
                c0 == self.counters(),
                types == c0.len(),
                n == olds@.len(),
                i <= n,
                news@.len() == i,
                tally@.len() == types,
                room_for(c0, olds@),
                forall|t: int| 0 <= t < olds@.len() ==> is_latest(self@, #[trigger] olds@[t]),
                forall|ty: int|
                    0 <= ty < types ==> #[trigger] tally@[ty] == count_ty(olds@.take(i as int), ty),
                forall|t: int|
                    0 <= t < i ==> #[trigger] news@[t] == (Sym {
                        ty: olds@[t].ty,
                        serial: (c0[olds@[t].ty as int] + count_ty(
                            olds@.take(t),
                            olds@[t].ty as int,
                        )) as u32,
                    }),
            decreases n - i,
        {
            let old: Sym = match olds.get_index(i) {
                Some(s) => s,
                None => unreached(),
            };
            proof {
                assert(is_latest(self@, olds@[i as int]));
                assert(record_ok(self@, c0, old));
                lemma_count_ty_take(olds@, old.ty as int, i as int);
                assert(count_ty(olds@, old.ty as int) > 0);
            }
            let at: usize = old.ty as usize;
            let c: u32 = match self.counter(old.ty) {
                Some(c) => c,
                None => unreached(),
            };
            let seen: u32 = tally[at];
            news.push(Sym { ty: old.ty, serial: c + seen });
            let ghost before = tally@;
            tally.set(at, seen + 1);
            i += 1;
            proof {
                let now = olds@.take(i as int);
                assert(now.drop_last() =~= olds@.take(i - 1));
                assert(now.last() == olds@[i - 1]);
                assert forall|ty: int| 0 <= ty < types implies #[trigger] tally@[ty] == count_ty(
                    now,
                    ty,
                ) by {
                    assert(before[ty] == count_ty(olds@.take(i - 1), ty));
                }
            }
        }
        news
    }

    /// The record of the new version of `olds[i]`.
    pub(crate) fn successor_of(
        &self,
        olds: &SymSet,
        news: &Vec<Sym>,
        repl: &StagedNodes,
        staged: bool,
        i: usize,
    ) -> (w: WorkAreaNode)
        requires
            self.wf(),
            olds.wf(),
            repl.wf(),
            news@.len() == olds@.len(),
            i < olds@.len(),
            self@.contains_key(olds@[i as int]),
        ensures
            w@ == successor(self@, olds@, news@, staged_map(repl@), staged, i as int),
    {
        let ghost m = self@;
        let ghost link = |x: Sym| linked(m, olds@, news@, staged, x);
        let old: Sym = match olds.get_index(i) {
            Some(s) => s,
            None => unreached(),
        };
        let rec: WorkAreaNode = match self.get(old) {
            Some(w) => w,
            None => unreached(),
        };
        let mut node: Node = match repl.get(old) {
            Some(n) => n,
            None => rec.egglog,
        };
        let ghost base = node@;
        node.sym = news[i];
        // the reverse edges of the old version, rewritten
        let from = rec.preds.as_slice();
        let mut preds = Syms::new();
        let mut j: usize = 0;
        while j < from.len()
            invariant
                self.wf(),
                olds.wf(),
                m == self@,
                news@.len() == olds@.len(),
                link == (|x: Sym| linked(m, olds@, news@, staged, x)),
                j <= from@.len(),
                preds@ == from@.take(j as int).map_values(link),
            decreases from.len() - j,
        {
            let y = self.link_of(olds, news, staged, from[j]);
            preds.push(y);
            j += 1;
            proof {
                assert(from@.take(j as int) =~= from@.take(j - 1).push(from@[j - 1]));
                assert(from@.take(j as int).map_values(link) =~= from@.take(j - 1).map_values(
                    link,
                ).push(link(from@[j - 1])));
            }
        }
        assert(from@.take(from@.len() as int) =~= from@);
        // the children of the payload, rewritten
        let n: usize = node.fields.len();
        let ghost start = node@;
        let mut j: usize = 0;
        while j < n
            invariant
                self.wf(),
                olds.wf(),
                m == self@,
                news@.len() == olds@.len(),
                link == (|x: Sym| linked(m, olds@, news@, staged, x)),
                n == node.fields.len(),
                j <= n,
                node@.sym == start.sym,
                node@.variant == start.variant,
                node@.fields.len() == start.fields.len(),
                forall|t: int| j <= t < n ==> #[trigger] node@.fields[t] == start.fields[t],
                forall|t: int|
                    0 <= t < j ==> #[trigger] node@.fields[t] == relink_fields(start.fields, link)[t],
            decreases n - j,
        {
            let ghost before = node@.fields;
            let child: Option<Sym> = match &node.fields[j] {
                Field::Child(c) => Some(*c),
                Field::Prim(_) => None,
            };
            proof {
                assert(node@.fields[j as int] == node.fields@[j as int]@);
                assert(start.fields[j as int] == node@.fields[j as int]);
            }
            match child {
                Some(c) => {
                    let y = self.link_of(olds, news, staged, c);
                    node.fields.set(j, Field::Child(y));
                },
                None => {},
            }
            j += 1;
            proof {
                assert(forall|t: int|
                    0 <= t < n && t != j - 1 ==> #[trigger] node@.fields[t] == before[t]);
                assert forall|t: int| 0 <= t < j implies #[trigger] node@.fields[t]
                    == relink_fields(start.fields, link)[t] by {
                    if t < j - 1 {
                        assert(before[t] == relink_fields(start.fields, link)[t]);
                    }
                }
            }
        }
        proof {
            assert(node@.fields =~= relink_fields(start.fields, link));
            assert(start == base.with_sym(news@[i as int]));
            assert(node@ == base.with_sym(news@[i as int]).relinked(link));
        }
        WorkAreaNode {
            next: None,
            prev: if staged {
                Some(old)
            } else {
                None
            },
            preds,
            egglog: node,
        }
    }

    /// Mints the symbols that new versions of `olds` get, in the order of
    /// `olds`.
    fn mint_for(&mut self, olds: &SymSet) -> (news: Vec<Sym>)
        requires
            old(self).wf(),
            olds.wf(),
            forall|i: int| 0 <= i < olds@.len() ==> is_latest(old(self)@, #[trigger] olds@[i]),
            room_for(old(self).counters(), olds@),
        ensures
            final(self).wf(),
            final(self)@ == old(self)@,
            final(self).names() == old(self).names(),
            final(self).counters() == advanced(old(self).counters(), olds@),
            minted(old(self).counters(), olds@, news@),
    {
        let ghost m = self@;
        let ghost c0 = self.counters();
        let n: usize = olds.len();
        let mut news: Vec<Sym> = Vec::new();
        let mut i: usize = 0;
        while i < n
            invariant
                self.wf(),
                olds.wf(),
                self@ == m,
                self.names() == old(self).names(),
                c0 == old(self).counters(),
                c0.len() == self.counters().len(),
                n == olds@.len(),
                i <= n,
                news@.len() == i,
                room_for(c0, olds@),
                forall|t: int| 0 <= t < olds@.len() ==> is_latest(m, #[trigger] olds@[t]),
                forall|ty: int|
                    0 <= ty < c0.len() ==> #[trigger] self.counters()[ty] == c0[ty] + count_ty(
                        olds@.take(i as int),
                        ty,
                    ),
                forall|t: int|
                    0 <= t < i ==> #[trigger] news@[t] == (Sym {
                        ty: olds@[t].ty,
                        serial: (c0[olds@[t].ty as int] + count_ty(
                            olds@.take(t),
                            olds@[t].ty as int,
                        )) as u32,
                    }),
            decreases n - i,
        {
            let old: Sym = match olds.get_index(i) {
                Some(s) => s,
                None => unreached(),
            };
            proof {
                assert(is_latest(m, olds@[i as int]));
                assert(record_ok(m, self.counters(), old));
                lemma_count_ty_take(olds@, old.ty as int, i as int);
                assert(count_ty(olds@, old.ty as int) > 0);
            }
            let ghost before = self.counters();
            let s = self.mint(old.ty);
            news.push(s);
            i += 1;
            proof {
                let now = olds@.take(i as int);
                assert(now.drop_last() =~= olds@.take(i - 1));
                assert(now.last() == olds@[i - 1]);
                assert forall|ty: int| 0 <= ty < c0.len() implies #[trigger] self.counters()[ty]
                    == c0[ty] + count_ty(now, ty) by {
                    assert(before[ty] == c0[ty] + count_ty(olds@.take(i - 1), ty));
                }
            }
        }
        proof {
            assert(olds@.take(n as int) =~= olds@);
            assert(self.counters() =~= advanced(c0, olds@));
        }
        news
    }

    /// Gives every node of `olds` a new version. The new version of a node
    /// staged in `repl` (under the node's own symbol) takes the staged
    /// payload, that of any other node a copy of the old payload. Returns
    /// the new symbols, in the order of `olds`, and the same symbols in an
    /// order in which every child comes before its parents.
    ///
    /// Where the new versions would name each other in a circle there is
    /// no such order: the step is refused as a cycle before anything is
    /// written, and nothing changes.
    pub fn version_up(&mut self, olds: &SymSet, repl: &StagedNodes, staged: bool) -> (r: Result<
        (Vec<Sym>, Vec<Sym>),
        RxError,
    >)
        requires
            old(self).wf(),
            olds.wf(),
            repl.wf(),
            forall|i: int| 0 <= i < olds@.len() ==> is_latest(old(self)@, #[trigger] olds@[i]),
            room_for(old(self).counters(), olds@),
            forall|i: int, j: int|
                0 <= i < olds@.len() && staged_map(repl@).contains_key(#[trigger] olds@[i]) && 0
                    <= j < staged_map(repl@)[olds@[i]].succs().len() ==> old(self)@.contains_key(
                    #[trigger] staged_map(repl@)[olds@[i]].succs()[j],
                ),
        ensures
            final(self).wf(),
            final(self).names() == old(self).names(),
            match r {
                Ok(made) => {
                    &&& final(self).counters() == advanced(old(self).counters(), olds@)
                    &&& minted(old(self).counters(), olds@, made.0@)
                    &&& beyond(old(self).counters(), made.0@)
                    &&& versionable(old(self)@, olds@, made.0@, staged_map(repl@))
                    &&& final(self)@ == versioned(
                        old(self)@,
                        olds@,
                        made.0@,
                        staged_map(repl@),
                        staged,
                    )
                    &&& children_first(final(self)@, made.0@, made.1@)
                },
                Err(e) => {
                    &&& e == RxError::CycleViolation
                    &&& final(self)@ == old(self)@
                    &&& final(self).counters() == old(self).counters()
                    &&& unorderable(
                        old(self)@,
                        old(self).counters(),
                        olds@,
                        staged_map(repl@),
                        staged,
                    )
                },
            },
    {
        let ghost m = self@;
        let ghost c0 = self.counters();
        let ghost rp = staged_map(repl@);
        let n: usize = olds.len();
        // build the new records and look for an order of them while the graph
        // is as it was
        let planned = self.plan_news(olds);
        proof {
            lemma_minted_versionable(m, c0, olds@, planned@, rp);
        }
        let mut fresh: Vec<WorkAreaNode> = Vec::new();
        let mut kids: Vec<Vec<Sym>> = Vec::new();
        let mut i: usize = 0;
        while i < n
            invariant
                self.wf(),
                olds.wf(),
                repl.wf(),
                self@ == m,
                rp == staged_map(repl@),
                n == olds@.len(),
                planned@.len() == n,
                i <= n,
                fresh@.len() == i,
                kids@.len() == i,
                forall|t: int| 0 <= t < olds@.len() ==> is_latest(m, #[trigger] olds@[t]),
                forall|t: int|
                    0 <= t < i ==> (#[trigger] fresh@[t])@ == successor(
                        m,
                        olds@,
                        planned@,
                        rp,
                        staged,
                        t,
                    ),
                forall|t: int| 0 <= t < i ==> (#[trigger] kids@[t])@ == fresh@[t]@.succs(),
            decreases n - i,
        {
            proof {
                assert(is_latest(m, olds@[i as int]));
            }
            let w = self.successor_of(olds, &planned, repl, staged, i);
            kids.push(w.succs());
            fresh.push(w);
            i += 1;
        }
        let members = SymSet::from_distinct(&planned);
        let ghost m2 = versioned(m, olds@, planned@, rp, staged);
        proof {
            assert forall|j: int| 0 <= j < members@.len() implies (#[trigger] kids@[j])@
                == m2[members@[j]].succs() by {
                lemma_index_of(planned@, j);
            }
        }
        let order = match order_members(&members, &kids, TopoDirection::Up, Ghost(m2)) {
            Ok(order) => order,
            Err(_) => {
                return Err(RxError::CycleViolation);
            },
        };
        // mint the new symbols
        let news = self.mint_for(olds);
        proof {
            lemma_minted_once(c0, olds@, news@, planned@);
            lemma_minted_versionable(m, c0, olds@, news@, rp);
        }
        // write: the old records get their pointers, the new ones are filed
        let ghost after = self.counters();
        let mut i: usize = n;
        let ghost total = n as int;
        while i > 0
            invariant
                olds.wf(),
                self.names() == old(self).names(),
                self.counters() == after,
                versionable(m, olds@, news@, rp),
                n == olds@.len(),
                news@.len() == n,
                total == n,
                i <= n,
                fresh@.len() == i,
                forall|t: int|
                    0 <= t < i ==> (#[trigger] fresh@[t])@ == successor(
                        m,
                        olds@,
                        news@,
                        rp,
                        staged,
                        t,
                    ),
                self@ == written_from(m, olds@, news@, rp, staged, i as int),
            decreases i,
        {
            i -= 1;
            let w: WorkAreaNode = fresh.pop().unwrap();
            let old: Sym = match olds.get_index(i) {
                Some(s) => s,
                None => unreached(),
            };
            let new: Sym = news[i];
            proof {
                lemma_written_from_step(m, olds@, news@, rp, staged, i as int);
                assert(is_latest(m, olds@[i as int]));
            }
            let mut r: WorkAreaNode = match self.get(old) {
                Some(r) => r,
                None => unreached(),
            };
            r.next = Some(new);
            self.put(old, r);
            self.put(new, w);
        }
        proof {
            assert(written_from(m, olds@, news@, rp, staged, 0) =~= succeeded(
                m,
                olds@,
                news@,
                rp,
                staged,
            )) by {
                assert(news@.skip(0) =~= news@);
                assert(olds@.skip(0) =~= olds@);
            }
            lemma_advanced_bounds(c0, olds@, news@);
            lemma_succeeded_ok(m, c0, after, olds@, news@, rp, staged);
            let g = succeeded(m, olds@, news@, rp, staged);
            assert forall|t: int| 0 <= t < news@.len() implies g.contains_key(
                #[trigger] news@[t],
            ) by {
                assert(news@.contains(news@[t]));
            }
            assert forall|t: int, j: int|
                0 <= t < news@.len() && 0 <= j < g[news@[t]].succs().len() implies g.contains_key(
                #[trigger] g[news@[t]].succs()[j],
            ) by {
                assert(news@.contains(news@[t]));
                assert(record_ok(g, after, news@[t]));
            }
        }
        // complete the reverse edges of the children of the new versions
        self.tie(&news);
        proof {
            lemma_versioned_wf(m, c0, after, olds@, news@, rp, staged);
            lemma_minted_once(c0, olds@, news@, planned@);
        }
        Ok((news, order))
    }

    /// Lists each of `news` among the reverse edges of each of its
    /// children, where it does not stand there.
    fn tie(&mut self, news: &Vec<Sym>)
        requires
            news@.no_duplicates(),
            forall|i: int| 0 <= i < news@.len() ==> old(self)@.contains_key(#[trigger] news@[i]),
            forall|i: int, j: int|
                0 <= i < news@.len() && 0 <= j < old(self)@[news@[i]].succs().len() ==> old(
                    self,
                )@.contains_key(#[trigger] old(self)@[news@[i]].succs()[j]),
        ensures
            final(self)@ == tied(old(self)@, news@),
            final(self).counters() == old(self).counters(),
            final(self).names() == old(self).names(),
    {
        let ghost g = self@;
        let n: usize = news.len();
        let mut i: usize = 0;
        proof {
            let none = news@.take(0);
            assert forall|k: Sym| #[trigger] g.contains_key(k) implies tied(g, none)[k] == g[k] by {
                assert(tied(g, none)[k].preds =~= g[k].preds);
            }
            assert(tied(g, none) =~= g);
        }
        while i < n
            invariant
                i <= n,
                n == news@.len(),
                news@.no_duplicates(),
                g == old(self)@,
                forall|t: int| 0 <= t < news@.len() ==> g.contains_key(#[trigger] news@[t]),
                forall|t: int, j: int|
                    0 <= t < news@.len() && 0 <= j < g[news@[t]].succs().len() ==> g.contains_key(
                        #[trigger] g[news@[t]].succs()[j],
                    ),
                self.counters() == old(self).counters(),
                self.names() == old(self).names(),
                self@ == tied(g, news@.take(i as int)),
            decreases n - i,
        {
            let p: Sym = news[i];
            proof {
                assert(g.contains_key(news@[i as int]));
            }
            let kids: Vec<Sym> = match self.get(p) {
                Some(w) => w.succs(),
                None => unreached(),
            };
            proof {
                lemma_tied_part_start(g, news@, i as int);
                assert(kids@.take(0) =~= Seq::<Sym>::empty());
            }
            let mut j: usize = 0;
            while j < kids.len()
                invariant
                    i < n,
                    n == news@.len(),
                    news@.no_duplicates(),
                    p == news@[i as int],
                    j <= kids@.len(),
                    kids@ == g[p].succs(),
                    forall|t: int| 0 <= t < kids@.len() ==> g.contains_key(#[trigger] kids@[t]),
                    self.counters() == old(self).counters(),
                    self.names() == old(self).names(),
                    self@ == tied_part(g, news@, i as int, kids@.take(j as int)),
                decreases kids.len() - j,
            {
                let c: Sym = kids[j];
                proof {
                    assert(g.contains_key(kids@[j as int]));
                    lemma_tied_part_step(g, news@, i as int, kids@.take(j as int), c);
                    assert(kids@.take(j as int + 1) =~= kids@.take(j as int).push(c));
                }
                let mut w: WorkAreaNode = match self.get(c) {
                    Some(w) => w,
                    None => unreached(),
                };
                if !w.preds.lists(p) {
                    w.preds.push(p);
                    self.put(c, w);
                }
                j += 1;
            }
            proof {
                assert(kids@.take(kids@.len() as int) =~= kids@);
                lemma_tied_part_end(g, news@, i as int);
            }
            i += 1;
        }
        proof {
            assert(news@.take(n as int) =~= news@);
        }
    }
}

/// The graph while the step is being written from the end of the list: the
/// nodes from position `from` on point to their new versions, whose records
/// stand.
pub open spec fn written_from(
    m: Graph,
    olds: Seq<Sym>,
    news: Seq<Sym>,
    repl: Map<Sym, NodeView>,
    staged: bool,
    from: int,
) -> Graph {
    Map::new(
        |k: Sym| m.contains_key(k) || news.skip(from).contains(k),
        |k: Sym|
            if news.skip(from).contains(k) {
                successor(m, olds, news, repl, staged, news.index_of(k))
            } else if olds.skip(from).contains(k) {
                WorkAreaNodeView { next: Some(news[olds.index_of(k)]), ..m[k] }
            } else {
                m[k]
            },
    )
}

/// Writing one more node, from the end of the list.
pub proof fn lemma_written_from_step(
    m: Graph,
    olds: Seq<Sym>,
    news: Seq<Sym>,
    repl: Map<Sym, NodeView>,
    staged: bool,
    at: int,
)
    requires
        versionable(m, olds, news, repl),
        0 <= at < olds.len(),
    ensures
        written_from(m, olds, news, repl, staged, at + 1).contains_key(olds[at]),
        written_from(m, olds, news, repl, staged, at + 1)[olds[at]] == m[olds[at]],
        written_from(m, olds, news, repl, staged, at) == written_from(
            m,
            olds,
            news,
            repl,
            staged,
            at + 1,
        ).insert(olds[at], WorkAreaNodeView { next: Some(news[at]), ..m[olds[at]] }).insert(
            news[at],
            successor(m, olds, news, repl, staged, at),
        ),
{
    let before = written_from(m, olds, news, repl, staged, at + 1);
    let after = written_from(m, olds, news, repl, staged, at);
    let old = olds[at];
    let new = news[at];
    let olds_here = olds.skip(at);
    let olds_rest = olds.skip(at + 1);
    let news_here = news.skip(at);
    let news_rest = news.skip(at + 1);
    assert(is_latest(m, olds[at]));
    assert(!m.contains_key(news[at]));
    lemma_index_of(olds, at);
    lemma_index_of(news, at);
    assert(!olds_rest.contains(old)) by {
        if olds_rest.contains(old) {
            let j = choose|j: int| 0 <= j < olds_rest.len() && olds_rest[j] == old;
            assert(olds[j + at + 1] == olds[at]);
        }
    }
    assert(!news_rest.contains(old)) by {
        if news_rest.contains(old) {
            let j = choose|j: int| 0 <= j < news_rest.len() && news_rest[j] == old;
            assert(!m.contains_key(news[j + at + 1]));
        }
    }
    let want = before.insert(old, WorkAreaNodeView { next: Some(new), ..m[old] }).insert(
        new,
        successor(m, olds, news, repl, staged, at),
    );
    assert forall|k: Sym| news_here.contains(k) <==> (news_rest.contains(k) || k == new) by {
        if news_here.contains(k) {
            let j = choose|j: int| 0 <= j < news_here.len() && news_here[j] == k;
            if j > 0 {
                assert(news_rest[j - 1] == k);
            }
        }
        if news_rest.contains(k) {
            let j = choose|j: int| 0 <= j < news_rest.len() && news_rest[j] == k;
            assert(news_here[j + 1] == k);
        }
        assert(news_here[0] == new);
    }
    assert forall|k: Sym| olds_here.contains(k) <==> (olds_rest.contains(k) || k == old) by {
        if olds_here.contains(k) {
            let j = choose|j: int| 0 <= j < olds_here.len() && olds_here[j] == k;
            if j > 0 {
                assert(olds_rest[j - 1] == k);
            }
        }
        if olds_rest.contains(k) {
            let j = choose|j: int| 0 <= j < olds_rest.len() && olds_rest[j] == k;
            assert(olds_here[j + 1] == k);
        }
        assert(olds_here[0] == old);
    }
    assert(after =~= want);
}

/// Symbols minted for current nodes of a graph that keeps its invariant are
/// distinct, unrecorded, and later symbols of the same types.
pub proof fn lemma_minted_versionable(
    m: Graph,
    counters: Seq<u32>,
    olds: Seq<Sym>,
    news: Seq<Sym>,
    repl: Map<Sym, NodeView>,
)
    requires
        graph_wf(m, counters),
        olds.no_duplicates(),
        forall|i: int| 0 <= i < olds.len() ==> is_latest(m, #[trigger] olds[i]),
        room_for(counters, olds),
        minted(counters, olds, news),
        forall|i: int, j: int|
            0 <= i < olds.len() && repl.contains_key(#[trigger] olds[i]) && 0 <= j
                < repl[olds[i]].succs().len() ==> m.contains_key(#[trigger] repl[olds[i]].succs()[j]),
    ensures
        versionable(m, olds, news, repl),
        beyond(counters, news),
{
    assert forall|i: int| 0 <= i < olds.len() implies (#[trigger] news[i]).ty == olds[i].ty
        && news[i].serial > olds[i].serial && news[i].serial >= counters[olds[i].ty as int]
        && !m.contains_key(news[i]) by {
        assert(is_latest(m, olds[i]));
        assert(record_ok(m, counters, olds[i]));
        lemma_count_ty_take(olds, olds[i].ty as int, i);
        if m.contains_key(news[i]) {
            assert(record_ok(m, counters, news[i]));
        }
    }
    assert forall|i: int, j: int| 0 <= i < news.len() && 0 <= j < news.len() && i != j implies news[i]
        != news[j] by {
        if olds[i].ty == olds[j].ty {
            let ty = olds[i].ty as int;
            let (lo, hi) = if i < j {
                (i, j)
            } else {
                (j, i)
            };
            lemma_count_ty_take(olds.take(hi), ty, lo);
            assert(olds.take(hi).take(lo) =~= olds.take(lo));
            assert(olds.take(hi)[lo] == olds[lo]);
            lemma_count_ty_take(olds, ty, hi);
            assert(is_latest(m, olds[hi]));
            assert(record_ok(m, counters, olds[hi]));
        }
    }
}

/// The counters after the step bound the new symbols and are not below the
/// counters before it.
pub proof fn lemma_advanced_bounds(counters: Seq<u32>, olds: Seq<Sym>, news: Seq<Sym>)
    requires
        room_for(counters, olds),
        minted(counters, olds, news),
        forall|i: int| 0 <= i < olds.len() ==> ((#[trigger] olds[i]).ty as int) < counters.len(),
    ensures
        advanced(counters, olds).len() == counters.len(),
        forall|ty: int|
            0 <= ty < counters.len() ==> counters[ty] <= #[trigger] advanced(counters, olds)[ty],
        forall|i: int|
            0 <= i < news.len() ==> (#[trigger] news[i]).serial < advanced(
                counters,
                olds,
            )[news[i].ty as int],
{
    assert forall|ty: int| 0 <= ty < counters.len() implies counters[ty] <= #[trigger] advanced(
        counters,
        olds,
    )[ty] by {
        if count_ty(olds, ty) > 0 {
        }
    }
    assert forall|i: int| 0 <= i < news.len() implies (#[trigger] news[i]).serial < advanced(
        counters,
        olds,
    )[news[i].ty as int] by {
        lemma_count_ty_take(olds, olds[i].ty as int, i);
        assert(count_ty(olds, olds[i].ty as int) > 0);
    }
}

} // verus!
