//! The text of a round: the assertions of the nodes that were created in
//! it, in the order in which the reasoning engine can read them.

use crate::graph::{graph_wf, record_ok, Graph, WorkingGraph};
use crate::node::{node_text, typed};
use crate::sym::Sym;
use crate::symset::SymSet;
use vstd::prelude::*;
use vstd::string::StringExecFns;

verus! {

/// What one round of versioning did: the nodes that got new versions, the
/// symbols of these, the order in which they are sent, and the text sent.
#[derive(Debug)]
pub struct Batch {
    /// The nodes that got a new version.
    pub olds: Vec<Sym>,
    /// The new version of each, at the same position.
    pub news: Vec<Sym>,
    /// The new versions in the order of their assertions.
    pub order: Vec<Sym>,
    /// The assertions, one after the other.
    pub text: String,
}

/// The assertions of the nodes of `order`, one after the other.
pub open spec fn batch_text(names: Seq<Seq<char>>, m: Graph, order: Seq<Sym>) -> Seq<char>
    decreases order.len(),
{
    if order.len() == 0 {
        Seq::empty()
    } else {
        batch_text(names, m, order.drop_last()) + node_text(names, m[order.last()].node)
    }
}

/// In a graph that keeps its invariant every symbol of a recorded node
/// belongs to a type of the schema.
pub proof fn lemma_recorded_typed(m: Graph, counters: Seq<u32>, k: Sym)
    requires
        graph_wf(m, counters),
        m.contains_key(k),
    ensures
        typed(m[k].node, counters.len()),
{
    assert(record_ok(m, counters, k));
    assert forall|i: int| 0 <= i < m[k].node.succs().len() implies ((
    #[trigger] m[k].node.succs()[i]).ty as nat) < counters.len() by {
        let c = m[k].succs()[i];
        assert(m.contains_key(c));
        assert(record_ok(m, counters, c));
    }
}

impl SymSet {
    /// The set of the symbols of a list without repetition, in the order of
    /// the list.
    pub fn from_distinct(v: &Vec<Sym>) -> (s: SymSet)
        requires
            v@.no_duplicates(),
        ensures
            s.wf(),
            s@ == v@,
    {
        let mut s = SymSet::new();
        let mut i: usize = 0;
        while i < v.len()
            invariant
                v@.no_duplicates(),
                i <= v.len(),
                s.wf(),
                s@ == v@.take(i as int),
            decreases v.len() - i,
        {
            proof {
                if s@.contains(v@[i as int]) {
                    let j = choose|j: int| 0 <= j < i && v@.take(i as int)[j] == v@[i as int];
                    assert(v@[j] == v@[i as int]);
                }
            }
            s.insert(v[i]);
            i += 1;
            assert(v@.take(i as int) =~= v@.take(i - 1).push(v@[i - 1]));
        }
        assert(v@.take(v.len() as int) =~= v@);
        s
    }
}

impl WorkingGraph {
    /// Renders the recorded nodes of `order`, one after the other.
    pub fn render_all(&self, order: &Vec<Sym>) -> (text: String)
        requires
            self.wf(),
            forall|i: int| 0 <= i < order@.len() ==> self@.contains_key(#[trigger] order@[i]),
        ensures
            text@ == batch_text(self.names(), self@, order@),
    {
        let mut text = String::new();
        let mut i: usize = 0;
        while i < order.len()
            invariant
                self.wf(),
                i <= order.len(),
                forall|j: int| 0 <= j < order@.len() ==> self@.contains_key(#[trigger] order@[j]),
                text@ == batch_text(self.names(), self@, order@.take(i as int)),
            decreases order.len() - i,
        {
            proof {
                assert(self@.contains_key(order@[i as int]));
                lemma_recorded_typed(self@, self.counters(), order@[i as int]);
            }
            match self.get(order[i]) {
                Some(w) => {
                    let one = w.egglog.to_egglog(self.type_names());
                    text.append(one.as_str());
                },
                None => {},
            }
            i += 1;
            proof {
                let now = order@.take(i as int);
                assert(now.drop_last() =~= order@.take(i - 1));
                assert(now.last() == order@[i - 1]);
            }
        }
        assert(order@.take(order.len() as int) =~= order@);
        text
    }
}

} // verus!
