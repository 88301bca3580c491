use egglog::EGraph;
use egglog_wrapper::error::RxError;
use egglog_wrapper::node::{Field, Node};
use egglog_wrapper::rx_vt::{Committed, RxVT};
use egglog_wrapper::sym::Sym;
use egglog_wrapper::symset::SymSet;

const LEAF: u32 = 0;
const CONS: u32 = 1;
const ROOT: u32 = 2;

/// An engine of the staged protocol with the reasoning engine it is kept
/// in step with.
struct Rig {
    rx: RxVT,
    engine: EGraph,
}

impl Rig {
    fn on_new(&mut self, ty: u32, variant: String, fields: Vec<Field>) -> Result<Node, RxError> {
        self.rx.on_new(ty, variant, fields)
    }

    fn on_stage(&mut self, node: &Node) {
        self.rx.on_stage(node)
    }

    fn on_commit(&mut self, node: &Node) -> Result<Committed, RxError> {
        let done = match self.rx.on_commit(node) {
            Ok(done) => done,
            Err(refused) => {
                for text in &refused.texts {
                    let answer = self.engine.parse_and_run_program(None, text);
                    self.rx.receive(text.clone(), answer)?;
                }
                return Err(refused.error);
            },
        };
        for text in &done.texts {
            let answer = self.engine.parse_and_run_program(None, text);
            self.rx.receive(text.clone(), answer)?;
        }
        Ok(done)
    }

    fn interpret(&mut self, s: String) -> Result<(), RxError> {
        let answer = self.engine.parse_and_run_program(None, &s);
        self.rx.interpret(s, answer)
    }
}

fn list_engine() -> Rig {
    let defs =
        "(datatype* (Leaf (LeafV i64)) (Cons (ConsV i64 Leaf)) (Root (Wrap Cons) (Pair Cons Leaf)))"
            .to_string();
    let names = vec!["leaf".to_string(), "cons".to_string(), "root".to_string()];
    let mut engine = EGraph::default();
    let answer = engine.parse_and_run_program(None, &defs);
    Rig { rx: RxVT::new_with_type_defs(defs, names, answer).unwrap(), engine }
}

fn prim(text: &str) -> Field {
    Field::Prim(text.to_string())
}

fn sym(ty: u32, serial: u32) -> Sym {
    Sym { ty, serial }
}

fn three_nodes(rx: &mut Rig) -> (Node, Node, Node) {
    let leaf = rx.on_new(LEAF, "LeafV".to_string(), vec![prim("1")]).unwrap();
    let leaf2 = rx
        .on_new(CONS, "ConsV".to_string(), vec![prim("2"), Field::Child(leaf.sym)])
        .unwrap();
    let root = rx.on_new(ROOT, "Wrap".to_string(), vec![Field::Child(leaf2.sym)]).unwrap();
    (leaf, leaf2, root)
}

#[test]
fn new_nodes_wait_for_the_commit() {
    let mut rx = list_engine();
    let (leaf, leaf2, root) = three_nodes(&mut rx);
    assert_eq!(rx.rx.staged_new_syms(), vec![leaf.sym, leaf2.sym, root.sym]);
    assert!(!rx.rx.graph().contains(leaf.sym));
    assert_eq!(rx.interpret("(check (= leaf0 (LeafV 1)))".to_string()), Err(RxError::BackendRejection));
    let done = rx.on_commit(&root).unwrap();
    assert_eq!(done.created, vec![leaf.sym, leaf2.sym, root.sym]);
    assert!(done.taken.is_empty());
    assert!(done.batch.news.is_empty());
    assert_eq!(done.batch.text, "");
    assert!(rx.rx.staged_new_syms().is_empty());
    assert!(rx.rx.graph().contains(root.sym));
    assert_eq!(rx.rx.graph().get(leaf.sym).unwrap().preds().to_vec(), vec![leaf2.sym]);
    rx.interpret("(check (= root0 (Wrap (ConsV 2 (LeafV 1)))))".to_string()).unwrap();
}

#[test]
fn second_commit_without_changes_is_a_no_op() {
    let mut rx = list_engine();
    let (_leaf, mut leaf2, root) = three_nodes(&mut rx);
    rx.on_commit(&root).unwrap();
    leaf2.fields[0] = prim("4");
    rx.rx.on_set(&mut leaf2);
    rx.on_stage(&leaf2);
    let first = rx.on_commit(&root).unwrap();
    assert_eq!(first.taken, vec![sym(CONS, 0)]);
    assert_eq!(first.batch.olds, vec![sym(ROOT, 0), sym(CONS, 0)]);
    assert_eq!(first.batch.news, vec![sym(ROOT, 1), sym(CONS, 1)]);
    assert_eq!(first.batch.order, vec![sym(CONS, 1), sym(ROOT, 1)]);
    assert_eq!(first.batch.text, "(let cons1 (ConsV  4 leaf0))(let root1 (Wrap  cons1))");
    assert!(rx.rx.staged_set_syms().is_empty());
    let second = rx.on_commit(&root).unwrap();
    assert!(second.created.is_empty());
    assert!(second.taken.is_empty());
    assert!(second.batch.olds.is_empty());
    assert!(second.batch.news.is_empty());
    assert_eq!(second.batch.text, "");
    assert_eq!(rx.rx.graph().counter(CONS), Some(2));
    assert_eq!(rx.rx.graph().counter(ROOT), Some(2));
    assert_eq!(rx.rx.graph().counter(LEAF), Some(1));
}

#[test]
fn a_commit_hands_out_its_texts_in_order() {
    let mut rx = list_engine();
    let (_leaf, mut leaf2, root) = three_nodes(&mut rx);
    let first = rx.rx.on_commit(&root).unwrap();
    assert_eq!(
        first.texts,
        vec![
            "(let leaf0 (LeafV  1))".to_string(),
            "(let cons0 (ConsV  2 leaf0))".to_string(),
            "(let root0 (Wrap  cons0))".to_string(),
        ]
    );
    leaf2.fields[0] = prim("4");
    rx.on_stage(&leaf2);
    let new_leaf = rx.on_new(LEAF, "LeafV".to_string(), vec![prim("9")]).unwrap();
    let second = rx.rx.on_commit(&root).unwrap();
    assert_eq!(second.created, vec![new_leaf.sym]);
    assert_eq!(
        second.texts,
        vec![
            "(let leaf1 (LeafV  9))".to_string(),
            "(let cons1 (ConsV  4 leaf0))(let root1 (Wrap  cons1))".to_string(),
        ]
    );
    // a commit that finds nothing to do has nothing for the reasoning engine
    let third = rx.rx.on_commit(&root).unwrap();
    assert!(third.texts.is_empty());
}

#[test]
fn staging_touches_neither_graph_nor_engine() {
    let mut rx = list_engine();
    let (_leaf, mut leaf2, root) = three_nodes(&mut rx);
    rx.on_commit(&root).unwrap();
    leaf2.fields[0] = prim("4");
    rx.on_stage(&leaf2);
    assert_eq!(rx.rx.staged_set_syms(), vec![sym(CONS, 0)]);
    assert_eq!(rx.rx.graph().get(sym(CONS, 0)).unwrap().next, None);
    assert_eq!(rx.rx.graph().counter(CONS), Some(1));
    assert_eq!(leaf2.sym, sym(CONS, 0));
    // staging again under the same symbol replaces what was staged
    leaf2.fields[0] = prim("5");
    rx.on_stage(&leaf2);
    assert_eq!(rx.rx.staged_set_syms(), vec![sym(CONS, 0)]);
    let done = rx.on_commit(&root).unwrap();
    assert_eq!(done.batch.text, "(let cons1 (ConsV  5 leaf0))(let root1 (Wrap  cons1))");
}

#[test]
fn only_the_changed_child_and_its_ancestors_get_new_versions() {
    let mut rx = list_engine();
    let inner = rx.on_new(LEAF, "LeafV".to_string(), vec![prim("1")]).unwrap();
    let mut c1 = rx
        .on_new(CONS, "ConsV".to_string(), vec![prim("2"), Field::Child(inner.sym)])
        .unwrap();
    let c2 = rx.on_new(LEAF, "LeafV".to_string(), vec![prim("3")]).unwrap();
    let r = rx
        .on_new(ROOT, "Pair".to_string(), vec![Field::Child(c1.sym), Field::Child(c2.sym)])
        .unwrap();
    rx.on_commit(&r).unwrap();
    c1.fields[0] = prim("8");
    rx.on_stage(&c1);
    let done = rx.on_commit(&r).unwrap();
    assert_eq!(done.batch.olds, vec![r.sym, c1.sym]);
    assert_eq!(done.batch.news, vec![sym(ROOT, 1), sym(CONS, 1)]);
    assert_eq!(done.batch.text, "(let cons1 (ConsV  8 leaf0))(let root1 (Pair  cons1 leaf1))");
    // C2 and the leaf below C1 are untouched, and no symbol was minted for them
    let g = rx.rx.graph();
    assert_eq!(g.get(c2.sym).unwrap().next, None);
    assert_eq!(g.get(inner.sym).unwrap().next, None);
    // but C2 lists the new root behind the old one
    assert_eq!(g.get(c2.sym).unwrap().preds().to_vec(), vec![r.sym, sym(ROOT, 1)]);
    assert_eq!(g.counter(LEAF), Some(2));
    // the new versions know the versions they replace
    assert_eq!(g.get(sym(CONS, 1)).unwrap().prev, Some(c1.sym));
    assert_eq!(g.get(sym(ROOT, 1)).unwrap().succs(), vec![sym(CONS, 1), c2.sym]);
}

#[test]
fn changes_outside_the_root_stay_staged() {
    let mut rx = list_engine();
    let (leaf, mut leaf2, root) = three_nodes(&mut rx);
    let mut other = rx.on_new(LEAF, "LeafV".to_string(), vec![prim("7")]).unwrap();
    rx.on_commit(&root).unwrap();
    other.fields[0] = prim("9");
    rx.on_stage(&other);
    leaf2.fields[0] = prim("4");
    rx.on_stage(&leaf2);
    let done = rx.on_commit(&root).unwrap();
    assert_eq!(done.taken, vec![leaf2.sym]);
    assert_eq!(rx.rx.staged_set_syms(), vec![other.sym]);
    assert_eq!(rx.rx.graph().get(other.sym).unwrap().next, None);
    assert_eq!(rx.rx.graph().get(leaf.sym).unwrap().next, None);
    // committing the other node itself carries its change through
    let later = rx.on_commit(&other).unwrap();
    assert_eq!(later.taken, vec![other.sym]);
    assert_eq!(later.batch.text, "(let leaf2 (LeafV  9))");
    assert!(rx.rx.staged_set_syms().is_empty());
}

#[test]
fn symbols_held_by_new_versions_are_resolved_to_current_versions() {
    let mut rx = list_engine();
    let (mut leaf, mut leaf2, root) = three_nodes(&mut rx);
    rx.on_commit(&root).unwrap();
    leaf2.fields[0] = prim("4");
    rx.on_stage(&leaf2);
    rx.on_commit(&root).unwrap();
    // Leaf lists both versions of Leaf2, so its change reaches the current one
    leaf.fields[0] = prim("6");
    rx.on_stage(&leaf);
    let done = rx.on_commit(&leaf).unwrap();
    let mut olds = done.batch.olds.clone();
    olds.sort_by_key(|s| (s.ty, s.serial));
    assert_eq!(olds, vec![leaf.sym, sym(CONS, 1), sym(ROOT, 1)]);
    assert_eq!(done.batch.order, vec![sym(LEAF, 1), sym(CONS, 2), sym(ROOT, 2)]);
    assert_eq!(
        done.batch.text,
        "(let leaf1 (LeafV  6))(let cons2 (ConsV  4 leaf1))(let root2 (Wrap  cons2))"
    );
    // the new version of Leaf lists the current parent for each parent Leaf listed
    assert_eq!(
        rx.rx.graph().get(sym(LEAF, 1)).unwrap().preds().to_vec(),
        vec![sym(CONS, 2), sym(CONS, 2)]
    );
}

#[test]
fn a_change_of_a_child_reaches_a_parent_that_got_a_new_version() {
    let mut rx = list_engine();
    let inner = rx.on_new(LEAF, "LeafV".to_string(), vec![prim("1")]).unwrap();
    let mut c1 = rx
        .on_new(CONS, "ConsV".to_string(), vec![prim("2"), Field::Child(inner.sym)])
        .unwrap();
    let mut c2 = rx.on_new(LEAF, "LeafV".to_string(), vec![prim("3")]).unwrap();
    let r = rx
        .on_new(ROOT, "Pair".to_string(), vec![Field::Child(c1.sym), Field::Child(c2.sym)])
        .unwrap();
    rx.on_commit(&r).unwrap();
    c1.fields[0] = prim("8");
    rx.on_stage(&c1);
    rx.on_commit(&r).unwrap();
    // C2 kept its version and lists the new root
    assert_eq!(rx.rx.graph().get(c2.sym).unwrap().preds().to_vec(), vec![r.sym, sym(ROOT, 1)]);
    c2.fields[0] = prim("5");
    rx.on_stage(&c2);
    let done = rx.on_commit(&r).unwrap();
    assert_eq!(done.taken, vec![c2.sym]);
    assert_eq!(done.batch.order, vec![sym(LEAF, 2), sym(ROOT, 2)]);
    // the current root names the current version of C2
    let g = rx.rx.graph();
    assert_eq!(g.get(sym(ROOT, 1)).unwrap().next, Some(sym(ROOT, 2)));
    assert_eq!(g.get(sym(ROOT, 2)).unwrap().next, None);
    assert_eq!(g.get(sym(ROOT, 2)).unwrap().succs(), vec![sym(CONS, 1), sym(LEAF, 2)]);
    assert_eq!(g.get(sym(CONS, 1)).unwrap().preds().to_vec(), vec![sym(ROOT, 1), sym(ROOT, 2)]);
    rx.interpret("(check (= root2 (Pair (ConsV 8 (LeafV 1)) (LeafV 5))))".to_string()).unwrap();
}

#[test]
fn a_refused_commit_hands_out_what_it_registered() {
    let mut rx = list_engine();
    let leaf = rx.on_new(LEAF, "LeafV".to_string(), vec![prim("1")]).unwrap();
    let bad = rx
        .on_new(CONS, "ConsV".to_string(), vec![prim("2"), Field::Child(sym(LEAF, 9))])
        .unwrap();
    let refused = rx.rx.on_commit(&leaf).unwrap_err();
    assert_eq!(refused.error, RxError::BadReference(sym(LEAF, 9)));
    assert_eq!(refused.created, vec![leaf.sym]);
    assert_eq!(refused.texts, vec!["(let leaf0 (LeafV  1))".to_string()]);
    assert_eq!(rx.rx.staged_new_syms(), vec![bad.sym]);
    // a root without record: the new nodes were registered all the same
    let mut rx = list_engine();
    let leaf = rx.on_new(LEAF, "LeafV".to_string(), vec![prim("1")]).unwrap();
    let stranger = Node::new(sym(ROOT, 5), "Wrap".to_string(), vec![]);
    let refused = rx.rx.on_commit(&stranger).unwrap_err();
    assert_eq!(refused.error, RxError::BadReference(sym(ROOT, 5)));
    assert_eq!(refused.created, vec![leaf.sym]);
    assert_eq!(refused.texts, vec!["(let leaf0 (LeafV  1))".to_string()]);
    assert!(rx.rx.graph().contains(leaf.sym));
}

#[test]
fn a_new_node_with_an_unknown_child_stops_the_commit() {
    let mut rx = list_engine();
    let leaf = rx.on_new(LEAF, "LeafV".to_string(), vec![prim("1")]).unwrap();
    let bad = rx
        .on_new(CONS, "ConsV".to_string(), vec![prim("2"), Field::Child(sym(LEAF, 9))])
        .unwrap();
    let after = rx.on_new(LEAF, "LeafV".to_string(), vec![prim("3")]).unwrap();
    assert_eq!(rx.on_commit(&leaf).err(), Some(RxError::BadReference(sym(LEAF, 9))));
    assert!(rx.rx.graph().contains(leaf.sym));
    assert!(!rx.rx.graph().contains(bad.sym));
    assert_eq!(rx.rx.staged_new_syms(), vec![bad.sym, after.sym]);
    assert!(rx.rx.checkpoints().is_empty());
}

#[test]
fn committing_an_unknown_root_is_a_bad_reference() {
    let mut rx = list_engine();
    let stranger = Node::new(sym(ROOT, 5), "Wrap".to_string(), vec![]);
    assert_eq!(rx.on_commit(&stranger).err(), Some(RxError::BadReference(sym(ROOT, 5))));
}

#[test]
fn a_staged_child_without_record_is_a_bad_reference() {
    let mut rx = list_engine();
    let (_leaf, mut leaf2, root) = three_nodes(&mut rx);
    rx.on_commit(&root).unwrap();
    leaf2.fields[1] = Field::Child(sym(LEAF, 4));
    rx.on_stage(&leaf2);
    assert_eq!(rx.on_commit(&root).err(), Some(RxError::BadReference(sym(LEAF, 4))));
    assert_eq!(rx.rx.staged_set_syms(), vec![leaf2.sym]);
    assert_eq!(rx.rx.graph().get(leaf2.sym).unwrap().next, None);
}

#[test]
fn every_commit_is_recorded() {
    let mut rx = list_engine();
    let (leaf, mut leaf2, root) = three_nodes(&mut rx);
    rx.on_commit(&root).unwrap();
    leaf2.fields[0] = prim("4");
    rx.on_stage(&leaf2);
    rx.on_commit(&root).unwrap();
    let history = rx.rx.checkpoints();
    assert_eq!(history.len(), 2);
    assert_eq!(history[0].committed_node_root, root.sym);
    assert_eq!(history[0].staged_new_nodes, vec![leaf.sym, leaf2.sym, root.sym]);
    assert!(history[0].staged_set_nodes.is_empty());
    assert_eq!(history[1].staged_set_nodes, vec![leaf2.sym]);
    assert!(history[1].staged_new_nodes.is_empty());
}

#[test]
fn versions_can_be_walked_in_both_directions() {
    let mut rx = list_engine();
    let (_leaf, mut leaf2, mut root) = three_nodes(&mut rx);
    rx.on_commit(&root).unwrap();
    for value in ["4", "5"] {
        leaf2.fields[0] = prim(value);
        rx.on_stage(&leaf2);
        rx.on_commit(&root).unwrap();
        rx.rx.set_latest(&mut leaf2.sym).unwrap();
        rx.rx.set_latest(&mut root.sym).unwrap();
    }
    assert_eq!(leaf2.sym, sym(CONS, 2));
    assert_eq!(root.sym, sym(ROOT, 2));
    assert_eq!(rx.rx.locate_latest(sym(CONS, 0)), Ok(sym(CONS, 2)));
    assert_eq!(rx.rx.locate_next(sym(CONS, 0)), Ok(sym(CONS, 1)));
    assert_eq!(rx.rx.locate_next(sym(CONS, 2)), Ok(sym(CONS, 2)));
    assert_eq!(rx.rx.locate_prev(sym(CONS, 2)), Ok(sym(CONS, 1)));
    assert_eq!(rx.rx.locate_prev(sym(CONS, 0)), Ok(sym(CONS, 0)));
    assert_eq!(rx.rx.locate_latest(sym(CONS, 7)), Err(RxError::BadReference(sym(CONS, 7))));
    let mut handle = sym(CONS, 1);
    rx.rx.set_prev(&mut handle).unwrap();
    assert_eq!(handle, sym(CONS, 0));
    rx.rx.set_next(&mut handle).unwrap();
    assert_eq!(handle, sym(CONS, 1));
    let once = rx.rx.locate_latest(sym(CONS, 0)).unwrap();
    assert_eq!(rx.rx.locate_latest(once), Ok(once));
}

#[test]
fn a_commit_below_an_old_root_passes_over_nodes_with_newer_versions() {
    let mut rx = list_engine();
    let (_leaf, mut leaf2, root) = three_nodes(&mut rx);
    rx.on_commit(&root).unwrap();
    leaf2.fields[0] = prim("4");
    rx.on_stage(&leaf2);
    rx.on_commit(&root).unwrap();
    rx.rx.set_latest(&mut leaf2.sym).unwrap();
    leaf2.fields[0] = prim("5");
    rx.on_stage(&leaf2);
    // the handle of the root still holds the first version, below which only
    // the first version of Leaf2 stands
    let done = rx.on_commit(&root).unwrap();
    assert!(done.taken.is_empty());
    assert_eq!(rx.rx.staged_set_syms(), vec![sym(CONS, 1)]);
}

#[test]
fn descendants_follow_the_staged_children() {
    let mut rx = list_engine();
    let (leaf, mut leaf2, root) = three_nodes(&mut rx);
    let other = rx.on_new(LEAF, "LeafV".to_string(), vec![prim("7")]).unwrap();
    rx.on_commit(&root).unwrap();
    rx.on_commit(&other).unwrap();
    let mut below = SymSet::new();
    rx.rx.collect_descendants(root.sym, &mut below).unwrap();
    assert_eq!(below.to_vec(), vec![leaf2.sym, leaf.sym]);
    leaf2.fields[1] = Field::Child(other.sym);
    rx.on_stage(&leaf2);
    let mut staged_below = SymSet::new();
    rx.rx.collect_descendants(root.sym, &mut staged_below).unwrap();
    assert_eq!(staged_below.to_vec(), vec![leaf2.sym, other.sym]);
}

#[test]
fn staging_a_node_of_an_unknown_type_is_unsupported() {
    let mut rx = list_engine();
    let r = rx.on_new(3, "LeafV".to_string(), vec![prim("1")]);
    assert_eq!(r.err(), Some(RxError::UnsupportedOperation));
    assert!(rx.rx.staged_new_syms().is_empty());
}

fn ring_engine() -> Rig {
    let defs = "(datatype* (A (ACon B)) (B (BCon A) (Empty)))".to_string();
    let names = vec!["a".to_string(), "b".to_string()];
    let mut engine = EGraph::default();
    let answer = engine.parse_and_run_program(None, &defs);
    Rig { rx: RxVT::new_with_type_defs(defs, names, answer).unwrap(), engine }
}

#[test]
fn a_commit_that_would_close_a_cycle_changes_nothing() {
    let mut rx = ring_engine();
    let empty = rx.on_new(1, "Empty".to_string(), vec![]).unwrap();
    let mut a = rx.on_new(0, "ACon".to_string(), vec![Field::Child(empty.sym)]).unwrap();
    let b = rx.on_new(1, "BCon".to_string(), vec![Field::Child(a.sym)]).unwrap();
    rx.on_commit(&b).unwrap();
    a.fields[0] = Field::Child(b.sym);
    rx.on_stage(&a);
    let refused = rx.rx.on_commit(&b).unwrap_err();
    assert_eq!(refused.error, RxError::CycleViolation);
    assert!(refused.created.is_empty());
    assert!(refused.texts.is_empty());
    // nothing was written, and the change goes on waiting
    let g = rx.rx.graph();
    assert_eq!(g.counter(0), Some(1));
    assert_eq!(g.counter(1), Some(2));
    assert!(!g.contains(sym(0, 1)));
    assert!(!g.contains(sym(1, 2)));
    assert_eq!(g.get(a.sym).unwrap().next, None);
    assert_eq!(g.get(b.sym).unwrap().next, None);
    assert_eq!(g.get(a.sym).unwrap().succs(), vec![empty.sym]);
    assert_eq!(rx.rx.staged_set_syms(), vec![a.sym]);
    assert_eq!(rx.rx.checkpoints().len(), 1);
}
