//! The order in which a set of nodes is sent to the reasoning engine: an
//! assertion may only name symbols that are bound already, so every child
//! comes before its parents.

use crate::error::RxError;
use crate::graph::{Graph, WorkingGraph};
use crate::sym::Sym;
use crate::symset::SymSet;
use vstd::prelude::*;

verus! {

/// Which end of the graph comes first in the order.
#[derive(Clone, Copy, Debug, PartialEq, Eq, Structural)]
pub enum TopoDirection {
    /// Children before their parents.
    Up,
    /// Parents before their children.
    Down,
}

/// The number of positions of `items` that hold a member of `set`.
pub open spec fn count_in(items: Seq<Sym>, set: Set<Sym>) -> nat
    decreases items.len(),
{
    if items.len() == 0 {
        0
    } else {
        count_in(items.drop_last(), set) + (if set.contains(items.last()) {
            1nat
        } else {
            0nat
        })
    }
}

/// An order of the members of `set` in which every node comes after each of
/// its children that is a member too.
pub open spec fn children_first(m: Graph, set: Seq<Sym>, order: Seq<Sym>) -> bool {
    &&& order.no_duplicates()
    &&& forall|x: Sym| order.contains(x) <==> set.contains(x)
    &&& forall|i: int, j: int|
        0 <= i < order.len() && 0 <= j < m[order[i]].succs().len() && set.contains(
            #[trigger] m[order[i]].succs()[j],
        ) ==> order.take(i).contains(m[order[i]].succs()[j])
}

/// An order of the members of `set` as the direction asks for it.
pub open spec fn sorted(m: Graph, set: Seq<Sym>, order: Seq<Sym>, direction: TopoDirection) -> bool {
    match direction {
        TopoDirection::Up => children_first(m, set, order),
        TopoDirection::Down => children_first(m, set, order.reverse()),
    }
}

/// The members of `set` that are not yet in the order.
pub open spec fn waiting(set: Seq<Sym>, emitted: Seq<Sym>) -> Set<Sym> {
    Set::new(|c: Sym| set.contains(c) && !emitted.contains(c))
}

/// A count above zero has a position that holds a member.
pub proof fn lemma_count_in_witness(items: Seq<Sym>, set: Set<Sym>) -> (at: int)
    requires
        count_in(items, set) > 0,
    ensures
        0 <= at < items.len(),
        set.contains(items[at]),
    decreases items.len(),
{
    if set.contains(items.last()) {
        items.len() - 1
    } else {
        lemma_count_in_witness(items.drop_last(), set)
    }
}

/// A count of zero leaves no position that holds a member.
pub proof fn lemma_count_in_zero(items: Seq<Sym>, set: Set<Sym>, at: int)
    requires
        count_in(items, set) == 0,
        0 <= at < items.len(),
    ensures
        !set.contains(items[at]),
    decreases items.len(),
{
    if at < items.len() - 1 {
        lemma_count_in_zero(items.drop_last(), set, at);
    }
}

/// Taking one member out of the set lowers the count by the number of
/// positions that hold it.
pub proof fn lemma_count_in_remove(items: Seq<Sym>, set: Set<Sym>, x: Sym)
    requires
        set.contains(x),
    ensures
        count_in(items, set) == count_in(items, set.remove(x)) + count_in(items, set![x]),
    decreases items.len(),
{
    if items.len() > 0 {
        lemma_count_in_remove(items.drop_last(), set, x);
    }
}

/// Counts the positions of `items` that hold `x`.
fn count_matching(items: &Vec<Sym>, x: Sym) -> (k: usize)
    ensures
        k == count_in(items@, set![x]),
{
    let mut k: usize = 0;
    let mut i: usize = 0;
    while i < items.len()
        invariant
            i <= items.len(),
            k <= i,
            k == count_in(items@.take(i as int), set![x]),
        decreases items.len() - i,
    {
        if items[i] == x {
            k += 1;
        }
        i += 1;
        proof {
            let now = items@.take(i as int);
            assert(now.drop_last() =~= items@.take(i - 1));
            assert(now.last() == items@[i - 1]);
        }
    }
    assert(items@.take(items.len() as int) =~= items@);
    k
}

/// Counts the edges that stay inside a set of nodes: the positions of
/// `nodes` that hold a member of `index_set`.
pub fn degree_in_subgraph(nodes: &Vec<Sym>, index_set: &SymSet) -> (d: usize)
    ensures
        d == count_in(nodes@, index_set@.to_set()),
{
    let mut d: usize = 0;
    let mut i: usize = 0;
    while i < nodes.len()
        invariant
            i <= nodes.len(),
            d <= i,
            d == count_in(nodes@.take(i as int), index_set@.to_set()),
        decreases nodes.len() - i,
    {
        if index_set.contains(nodes[i]) {
            d += 1;
        }
        i += 1;
        proof {
            let now = nodes@.take(i as int);
            assert(now.drop_last() =~= nodes@.take(i - 1));
            assert(now.last() == nodes@[i - 1]);
        }
    }
    assert(nodes@.take(nodes.len() as int) =~= nodes@);
    d
}

/// A list without repetition whose items all belong to another such list
/// is not longer than that list, and as long only if it holds all of it.
pub proof fn lemma_distinct_within(part: Seq<Sym>, whole: Seq<Sym>)
    requires
        part.no_duplicates(),
        whole.no_duplicates(),
        forall|i: int| 0 <= i < part.len() ==> whole.contains(#[trigger] part[i]),
    ensures
        part.len() <= whole.len(),
        part.len() == whole.len() ==> forall|x: Sym| whole.contains(x) ==> part.contains(x),
{
    part.unique_seq_to_set();
    whole.unique_seq_to_set();
    assert(part.to_set().subset_of(whole.to_set())) by {
        assert forall|x: Sym| part.to_set().contains(x) implies whole.to_set().contains(x) by {
            let i = choose|i: int| 0 <= i < part.len() && part[i] == x;
            assert(whole.contains(part[i]));
        }
    }
    vstd::set_lib::lemma_len_subset(part.to_set(), whole.to_set());
    if part.len() == whole.len() {
        vstd::set_lib::lemma_subset_equality(part.to_set(), whole.to_set());
        assert forall|x: Sym| whole.contains(x) implies part.contains(x) by {
            assert(whole.to_set().contains(x));
            assert(part.to_set().contains(x));
        }
    }
}

/// The first position of `order` whose node is not in `emitted`.
pub proof fn lemma_first_waiting(order: Seq<Sym>, emitted: Seq<Sym>, bound: int) -> (at: int)
    requires
        0 <= bound < order.len(),
        !emitted.contains(order[bound]),
    ensures
        0 <= at <= bound,
        !emitted.contains(order[at]),
        forall|k: int| 0 <= k < at ==> emitted.contains(#[trigger] order[k]),
    decreases bound,
{
    if exists|k: int| 0 <= k < bound && !emitted.contains(#[trigger] order[k]) {
        let k = choose|k: int| 0 <= k < bound && !emitted.contains(#[trigger] order[k]);
        lemma_first_waiting(order, emitted, k)
    } else {
        bound
    }
}

/// Where some member waits and every waiting member has a waiting child,
/// no order puts every child before its parents.
pub proof fn lemma_stuck_means_cycle(m: Graph, set: Seq<Sym>, emitted: Seq<Sym>, order: Seq<Sym>)
    requires
        exists|x: Sym| #[trigger] waiting(set, emitted).contains(x),
        forall|x: Sym| #[trigger]
            waiting(set, emitted).contains(x) ==> count_in(m[x].succs(), waiting(set, emitted)) > 0,
    ensures
        !children_first(m, set, order),
{
    if children_first(m, set, order) {
        let x = choose|x: Sym| #[trigger] waiting(set, emitted).contains(x);
        assert(order.contains(x));
        let bound = choose|i: int| 0 <= i < order.len() && order[i] == x;
        let at = lemma_first_waiting(order, emitted, bound);
        let u = order[at];
        assert(order.contains(u));
        assert(waiting(set, emitted).contains(u));
        let t = lemma_count_in_witness(m[u].succs(), waiting(set, emitted));
        let c = m[u].succs()[t];
        assert(set.contains(m[order[at]].succs()[t]));
        assert(order.take(at).contains(c));
        let k = choose|k: int| 0 <= k < order.take(at).len() && order.take(at)[k] == c;
        assert(order[k] == c);
        assert(emitted.contains(order[k]));
    }
}

/// The reverse of the reverse is the order itself.
pub proof fn lemma_reverse_twice(order: Seq<Sym>)
    ensures
        order.reverse().reverse() == order,
{
    assert(order.reverse().reverse() =~= order);
}

impl WorkingGraph {
    /// Puts the members of `index_set` in an order in which every child
    /// comes before its parents (`Up`) or every parent before its children
    /// (`Down`), counting only edges between members.
    ///
    /// Every member needs a record. Where the edges between the members
    /// close a cycle no such order exists, and that is what the error says.
    pub fn topo_sort(&self, index_set: &SymSet, direction: TopoDirection) -> (r: Result<
        Vec<Sym>,
        RxError,
    >)
        requires
            self.wf(),
            index_set.wf(),
        ensures
            match r {
                Ok(order) => {
                    &&& forall|i: int|
                        0 <= i < index_set@.len() ==> self@.contains_key(#[trigger] index_set@[i])
                    &&& sorted(self@, index_set@, order@, direction)
                },
                Err(RxError::BadReference(s)) => index_set@.contains(s) && !self@.contains_key(s),
                Err(RxError::CycleViolation) => {
                    &&& forall|i: int|
                        0 <= i < index_set@.len() ==> self@.contains_key(#[trigger] index_set@[i])
                    &&& forall|o: Seq<Sym>| !children_first(self@, index_set@, o)
                },
                Err(_) => false,
            },
    {
        let ghost m = self@;
        let ghost set = index_set@;
        let members: Vec<Sym> = index_set.to_vec();
        let n: usize = members.len();
        // The children of each member.
        let mut kids: Vec<Vec<Sym>> = Vec::new();
        let mut i: usize = 0;
        while i < n
            invariant
                self.wf(),
                m == self@,
                set == index_set@,
                members@ == set,
                n == set.len(),
                i <= n,
                kids@.len() == i,
                forall|j: int| 0 <= j < i ==> m.contains_key(#[trigger] set[j]),
                forall|j: int| 0 <= j < i ==> (#[trigger] kids@[j])@ == m[set[j]].succs(),
            decreases n - i,
        {
            match self.get(members[i]) {
                None => {
                    assert(set[i as int] == members@[i as int]);
                    return Err(RxError::BadReference(members[i]));
                },
                Some(w) => {
                    kids.push(w.succs());
                },
            }
            i += 1;
        }
        match order_members(index_set, &kids, direction, Ghost(m)) {
            Ok(order) => Ok(order),
            Err(_) => Err(RxError::CycleViolation),
        }
    }
}

/// Puts the members of `index_set` in an order in which every child comes
/// before its parents (`Up`) or every parent before its children (`Down`),
/// given the children of each member, and counting only edges between
/// members. Where these close a cycle no such order exists, and that is
/// what the error says.
pub(crate) fn order_members(
    index_set: &SymSet,
    kids: &Vec<Vec<Sym>>,
    direction: TopoDirection,
    Ghost(m): Ghost<Graph>,
) -> (r: Result<Vec<Sym>, RxError>)
    requires
        index_set.wf(),
        kids@.len() == index_set@.len(),
        forall|j: int|
            0 <= j < index_set@.len() ==> (#[trigger] kids@[j])@ == m[index_set@[j]].succs(),
    ensures
        match r {
            Ok(order) => sorted(m, index_set@, order@, direction),
            Err(e) => e == RxError::CycleViolation && forall|o: Seq<Sym>|
                !children_first(m, index_set@, o),
        },
{
    let ghost set = index_set@;
    let members: Vec<Sym> = index_set.to_vec();
    let n: usize = members.len();
    // How many children of each member are members.
    let mut outs: Vec<usize> = Vec::new();
    let mut i: usize = 0;
    while i < n
        invariant
            set == index_set@,
            n == set.len(),
            kids@.len() == n,
            i <= n,
            outs@.len() == i,
            forall|j: int| 0 <= j < n ==> (#[trigger] kids@[j])@ == m[set[j]].succs(),
            forall|j: int|
                0 <= j < i ==> #[trigger] outs@[j] == count_in(
                    m[set[j]].succs(),
                    waiting(set, Seq::empty()),
                ),
        decreases n - i,
    {
        let d = degree_in_subgraph(&kids[i], index_set);
        proof {
            assert(waiting(set, Seq::empty()) =~= set.to_set());
        }
        outs.push(d);
        i += 1;
    }
    // Members without a child among the members can go at once.
    let mut work: Vec<usize> = Vec::new();
    let mut i: usize = 0;
    while i < n
        invariant
            n == set.len(),
            outs@.len() == n,
            i <= n,
            work@.no_duplicates(),
            forall|t: int| 0 <= t < work@.len() ==> (#[trigger] work@[t]) < i,
            forall|j: int| 0 <= j < i ==> (outs@[j] == 0 <==> work@.contains(j as usize)),
        decreases n - i,
    {
        let ghost before = work@;
        if outs[i] == 0 {
            work.push(i);
            proof {
                assert(work@[before.len() as int] == i);
                assert forall|j: int| 0 <= j < i + 1 implies (outs@[j] == 0 <==> work@.contains(
                    j as usize,
                )) by {
                    if before.contains(j as usize) {
                        let t = choose|t: int| 0 <= t < before.len() && before[t] == j as usize;
                        assert(work@[t] == j as usize);
                    }
                    if work@.contains(j as usize) && j != i {
                        let t = choose|t: int| 0 <= t < work@.len() && work@[t] == j as usize;
                        assert(before[t] == j as usize);
                    }
                }
            }
        } else {
            proof {
                if work@.contains(i) {
                    let t = choose|t: int| 0 <= t < work@.len() && work@[t] == i;
                    assert(work@[t] < i);
                }
            }
        }
        i += 1;
    }
    let mut order: Vec<Sym> = Vec::new();
    proof {
        assert forall|j: int| 0 <= j < n implies (outs@[j] == 0 <==> (work@.contains(j as usize)
            || order@.contains(set[j]))) by {}
    }
    while work.len() > 0
        invariant
            index_set.wf(),
            set == index_set@,
            members@ == set,
            n == set.len(),
            kids@.len() == n,
            outs@.len() == n,
            forall|j: int| 0 <= j < n ==> (#[trigger] kids@[j])@ == m[set[j]].succs(),
            forall|j: int|
                0 <= j < n ==> #[trigger] outs@[j] == count_in(
                    m[set[j]].succs(),
                    waiting(set, order@),
                ),
            work@.no_duplicates(),
            order@.no_duplicates(),
            forall|t: int|
                0 <= t < work@.len() ==> (#[trigger] work@[t]) < n && !order@.contains(
                    set[work@[t] as int],
                ),
            forall|t: int| 0 <= t < order@.len() ==> set.contains(#[trigger] order@[t]),
            forall|j: int|
                0 <= j < n ==> (outs@[j] == 0 <==> (work@.contains(j as usize)
                    || order@.contains(#[trigger] set[j]))),
            forall|a: int, b: int|
                0 <= a < order@.len() && 0 <= b < m[order@[a]].succs().len() && set.contains(
                    #[trigger] m[order@[a]].succs()[b],
                ) ==> order@.take(a).contains(m[order@[a]].succs()[b]),
        decreases n - order@.len(),
    {
        let ghost work_before = work@;
        let ghost emitted = order@;
        let c: usize = work.pop().unwrap();
        let x: Sym = members[c];
        proof {
            assert(work_before[work_before.len() - 1] == c);
            assert(forall|t: int| 0 <= t < work@.len() ==> work@[t] == work_before[t]);
            assert(x == set[c as int]);
            assert(!emitted.contains(x));
            assert(work_before.contains(c));
            assert(outs@[c as int] == 0);
            assert(!work@.contains(c)) by {
                if work@.contains(c) {
                    let t = choose|t: int| 0 <= t < work@.len() && work@[t] == c;
                    assert(work_before[t] == c);
                }
            }
        }
        order.push(x);
        proof {
            let now = order@;
            assert(now.take(emitted.len() as int) =~= emitted);
            assert forall|a: int, b: int| 0 <= a < now.len() && a != b implies now[a]
                != now[b] || !(0 <= b < now.len()) by {
                if 0 <= b < now.len() {
                    if a < emitted.len() && b < emitted.len() {
                        assert(emitted[a] != emitted[b]);
                    } else if a < emitted.len() {
                        assert(emitted.contains(emitted[a]));
                    } else {
                        assert(emitted.contains(emitted[b]));
                    }
                }
            }
            assert(now.no_duplicates());
            assert(set.contains(x)) by {
                assert(set[c as int] == x);
            }
            lemma_distinct_within(now, set);
            // every child of `x` among the members is in the order already
            assert forall|a: int, b: int|
                0 <= a < now.len() && 0 <= b < m[now[a]].succs().len() && set.contains(
                    #[trigger] m[now[a]].succs()[b],
                ) implies now.take(a).contains(m[now[a]].succs()[b]) by {
                let ch = m[now[a]].succs()[b];
                if a < emitted.len() {
                    assert(now[a] == emitted[a]);
                    assert(emitted.take(a).contains(ch));
                    assert(now.take(a) =~= emitted.take(a));
                } else {
                    assert(now[a] == x);
                    lemma_count_in_zero(m[x].succs(), waiting(set, emitted), b);
                    assert(emitted.contains(ch));
                    assert(now.take(a) =~= emitted);
                }
            }
            assert forall|s: Sym| now.contains(s) <==> (emitted.contains(s) || s == x) by {
                if now.contains(s) {
                    let t = choose|t: int| 0 <= t < now.len() && now[t] == s;
                    if t < emitted.len() {
                        assert(emitted[t] == s);
                    }
                }
                if emitted.contains(s) {
                    let t = choose|t: int| 0 <= t < emitted.len() && emitted[t] == s;
                    assert(now[t] == s);
                }
                assert(now[emitted.len() as int] == x);
            }
            assert(waiting(set, now) =~= waiting(set, emitted).remove(x));
        }
        let mut j: usize = 0;
        while j < n
            invariant
                    set == index_set@,
                members@ == set,
                n == set.len(),
                kids@.len() == n,
                outs@.len() == n,
                j <= n,
                c < n,
                x == set[c as int],
                set.no_duplicates(),
                order@ == emitted.push(x),
                set.contains(x),
                !emitted.contains(x),
                waiting(set, order@) == waiting(set, emitted).remove(x),
                forall|s: Sym| order@.contains(s) <==> (emitted.contains(s) || s == x),
                forall|t: int| 0 <= t < n ==> (#[trigger] kids@[t])@ == m[set[t]].succs(),
                forall|t: int|
                    0 <= t < j ==> #[trigger] outs@[t] == count_in(
                        m[set[t]].succs(),
                        waiting(set, order@),
                    ),
                forall|t: int|
                    j <= t < n ==> #[trigger] outs@[t] == count_in(
                        m[set[t]].succs(),
                        waiting(set, emitted),
                    ),
                work@.no_duplicates(),
                forall|t: int|
                    0 <= t < work@.len() ==> (#[trigger] work@[t]) < n && !order@.contains(
                        set[work@[t] as int],
                    ),
                forall|t: int|
                    0 <= t < n ==> (outs@[t] == 0 <==> (work@.contains(t as usize)
                        || order@.contains(#[trigger] set[t]))),
            decreases n - j,
        {
            let k: usize = count_matching(&kids[j], x);
            let ghost work_mid = work@;
            let ghost outs_mid = outs@;
            proof {
                lemma_count_in_remove(m[set[j as int]].succs(), waiting(set, emitted), x);
                assert((kids@[j as int])@ == m[set[j as int]].succs());
            }
            if k > 0 {
                let left: usize = outs[j] - k;
                outs.set(j, left);
                if left == 0 {
                    work.push(j);
                }
            }
            proof {
                assert(outs@[j as int] == count_in(
                    m[set[j as int]].succs(),
                    waiting(set, order@),
                ));
                if k > 0 {
                    // `j` was neither waiting for release nor in the order
                    assert(outs_mid[j as int] > 0);
                    assert(!work_mid.contains(j));
                    assert(!order@.contains(set[j as int]));
                }
                if k > 0 && outs@[j as int] == 0 {
                    assert(work@[work_mid.len() as int] == j);
                    assert forall|a: int, b: int|
                        0 <= a < work@.len() && 0 <= b < work@.len() && a != b implies work@[a]
                        != work@[b] by {
                        if a < work_mid.len() && b < work_mid.len() {
                            assert(work_mid[a] != work_mid[b]);
                        } else if a < work_mid.len() {
                            assert(work_mid.contains(work_mid[a]));
                        } else {
                            assert(work_mid.contains(work_mid[b]));
                        }
                    }
                    assert forall|t: int| 0 <= t < work@.len() implies (#[trigger] work@[t]) < n
                        && !order@.contains(set[work@[t] as int]) by {
                        if t < work_mid.len() {
                            assert(work@[t] == work_mid[t]);
                        }
                    }
                }
                assert forall|t: int| 0 <= t < n implies (outs@[t] == 0 <==> (work@.contains(
                    t as usize,
                ) || order@.contains(#[trigger] set[t]))) by {
                    if work_mid.contains(t as usize) {
                        let p = choose|p: int|
                            0 <= p < work_mid.len() && work_mid[p] == t as usize;
                        assert(work@[p] == t as usize);
                    }
                    if work@.contains(t as usize) && !work_mid.contains(t as usize) {
                        let p = choose|p: int| 0 <= p < work@.len() && work@[p] == t as usize;
                        if p < work_mid.len() {
                            assert(work_mid[p] == t as usize);
                        }
                    }
                    if t != j {
                        assert(outs@[t] == outs_mid[t]);
                    }
                }
            }
            j += 1;
        }
    }
    if order.len() == n {
        proof {
            lemma_distinct_within(order@, set);
            assert(children_first(m, set, order@)) by {
                assert forall|x: Sym| order@.contains(x) implies set.contains(x) by {
                    let t = choose|t: int| 0 <= t < order@.len() && order@[t] == x;
                    assert(set.contains(order@[t]));
                }
            }
        }
        match direction {
            TopoDirection::Up => Ok(order),
            TopoDirection::Down => {
                let mut back: Vec<Sym> = Vec::new();
                let mut i: usize = n;
                while i > 0
                    invariant
                        n == order@.len(),
                        i <= n,
                        back@.len() == n - i,
                        forall|t: int|
                            0 <= t < back@.len() ==> #[trigger] back@[t] == order@[n - 1 - t],
                    decreases i,
                {
                    i -= 1;
                    back.push(order[i]);
                }
                proof {
                    assert(back@ =~= order@.reverse());
                    lemma_reverse_twice(order@);
                }
                Ok(back)
            },
        }
    } else {
        proof {
            lemma_distinct_within(order@, set);
            // some member waits, and every waiting member has a waiting child
            assert(exists|x: Sym| #[trigger] waiting(set, order@).contains(x)) by {
                if forall|t: int| 0 <= t < n ==> order@.contains(#[trigger] set[t]) {
                    lemma_distinct_within(set, order@);
                }
                let t = choose|t: int| 0 <= t < n && !order@.contains(#[trigger] set[t]);
                assert(set.contains(set[t]));
                assert(waiting(set, order@).contains(set[t]));
            }
            assert forall|x: Sym| #[trigger] waiting(set, order@).contains(x) implies count_in(
                m[x].succs(),
                waiting(set, order@),
            ) > 0 by {
                let t = choose|t: int| 0 <= t < set.len() && set[t] == x;
                assert(!work@.contains(t as usize));
                assert(!order@.contains(set[t]));
                assert(outs@[t] != 0);
            }
            assert forall|o: Seq<Sym>| !children_first(m, set, o) by {
                lemma_stuck_means_cycle(m, set, order@, o);
            }
        }
        Err(RxError::CycleViolation)
    }
}

} // verus!
