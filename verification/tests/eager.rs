use egglog::EGraph;
use egglog_wrapper::emit::Batch;
use egglog_wrapper::error::RxError;
use egglog_wrapper::node::{Field, Node};
use egglog_wrapper::rx::RxNoVT;
use egglog_wrapper::sorts::{collect_string_type_defs, FuncSort, TySort};
use egglog_wrapper::sym::Sym;
use egglog_wrapper::symset::SymSet;

const LEAF: u32 = 0;
const CONS: u32 = 1;
const ROOT: u32 = 2;

/// An engine of the eager protocol with the reasoning engine it is kept in
/// step with.
struct Rig {
    rx: RxNoVT,
    engine: EGraph,
}

impl Rig {
    fn on_new(&mut self, ty: u32, variant: String, fields: Vec<Field>) -> Result<Node, RxError> {
        let (node, text) = self.rx.on_new(ty, variant, fields)?;
        let answer = self.engine.parse_and_run_program(None, &text);
        self.rx.add_node(&node, answer)?;
        Ok(node)
    }

    fn on_set(&mut self, node: &mut Node) -> Result<Batch, RxError> {
        let batch = self.rx.on_set(node)?;
        let answer = self.engine.parse_and_run_program(None, &batch.text);
        self.rx.receive(batch.text.clone(), answer)?;
        Ok(batch)
    }

    fn interpret(&mut self, s: String) -> Result<(), RxError> {
        let answer = self.engine.parse_and_run_program(None, &s);
        self.rx.interpret(s, answer)
    }
}

fn list_schema() -> Rig {
    let sorts = vec![
        TySort("(Leaf (LeafV i64))"),
        TySort("(Cons (ConsV i64 Leaf))"),
        TySort("(Root (Wrap Cons) (Pair Cons Leaf))"),
    ];
    let funcs: Vec<FuncSort> = Vec::new();
    let defs = collect_string_type_defs(&sorts, &funcs);
    let names = vec!["leaf".to_string(), "cons".to_string(), "root".to_string()];
    let mut engine = EGraph::default();
    let answer = engine.parse_and_run_program(None, &defs);
    Rig { rx: RxNoVT::new_with_type_defs(defs, names, answer).unwrap(), engine }
}

fn prim(text: &str) -> Field {
    Field::Prim(text.to_string())
}

fn sym(ty: u32, serial: u32) -> Sym {
    Sym { ty, serial }
}

fn three_nodes(rx: &mut Rig) -> (Node, Node, Node) {
    let leaf = rx.on_new(LEAF, "LeafV".to_string(), vec![prim("1")]).unwrap();
    let leaf2 = rx
        .on_new(CONS, "ConsV".to_string(), vec![prim("2"), Field::Child(leaf.sym)])
        .unwrap();
    let root = rx.on_new(ROOT, "Wrap".to_string(), vec![Field::Child(leaf2.sym)]).unwrap();
    (leaf, leaf2, root)
}

#[test]
fn new_nodes_get_the_first_symbols_of_their_types() {
    let mut rx = list_schema();
    let (leaf, leaf2, root) = three_nodes(&mut rx);
    assert_eq!(leaf.sym, sym(LEAF, 0));
    assert_eq!(leaf2.sym, sym(CONS, 0));
    assert_eq!(root.sym, sym(ROOT, 0));
    let second = rx.on_new(LEAF, "LeafV".to_string(), vec![prim("7")]).unwrap();
    assert_eq!(second.sym, sym(LEAF, 1));
}

#[test]
fn registration_adds_the_reverse_edges() {
    let mut rx = list_schema();
    let (leaf, leaf2, root) = three_nodes(&mut rx);
    let g = rx.rx.graph();
    assert_eq!(g.get(leaf.sym).unwrap().preds().to_vec(), vec![leaf2.sym]);
    assert_eq!(g.get(leaf2.sym).unwrap().preds().to_vec(), vec![root.sym]);
    assert!(g.get(root.sym).unwrap().preds().is_empty());
    assert_eq!(g.get(root.sym).unwrap().succs(), vec![leaf2.sym]);
    assert_eq!(g.get(leaf.sym).unwrap().next, None);
}

#[test]
fn a_child_named_twice_lists_its_parent_twice() {
    let mut rx = list_schema();
    let leaf = rx.on_new(LEAF, "LeafV".to_string(), vec![prim("1")]).unwrap();
    let cons = rx
        .on_new(CONS, "ConsV".to_string(), vec![prim("2"), Field::Child(leaf.sym)])
        .unwrap();
    let pair = rx
        .on_new(ROOT, "Pair".to_string(), vec![Field::Child(cons.sym), Field::Child(leaf.sym)])
        .unwrap();
    assert_eq!(rx.rx.graph().get(leaf.sym).unwrap().preds().to_vec(), vec![cons.sym, pair.sym]);
}

#[test]
fn mutation_versions_the_node_and_its_ancestors_only() {
    let mut rx = list_schema();
    let (leaf, mut leaf2, root) = three_nodes(&mut rx);
    leaf2.fields[0] = prim("4");
    let batch = rx.on_set(&mut leaf2).unwrap();
    // exactly two new symbols: the new versions of Leaf2 and of Root
    assert_eq!(batch.olds, vec![root.sym, sym(CONS, 0)]);
    assert_eq!(batch.news, vec![sym(ROOT, 1), sym(CONS, 1)]);
    assert_eq!(leaf2.sym, sym(CONS, 1));
    // Leaf2' is rendered before Root'
    assert_eq!(batch.order, vec![sym(CONS, 1), sym(ROOT, 1)]);
    assert_eq!(batch.text, "(let cons1 (ConsV  4 leaf0))(let root1 (Wrap  cons1))");
    // Leaf keeps its version and lists the new version of Leaf2 behind the old
    let g = rx.rx.graph();
    let kept = g.get(leaf.sym).unwrap();
    assert_eq!(kept.next, None);
    assert_eq!(kept.preds().to_vec(), vec![sym(CONS, 0), sym(CONS, 1)]);
    assert_eq!(g.counter(LEAF), Some(1));
    assert_eq!(g.counter(CONS), Some(2));
    assert_eq!(g.counter(ROOT), Some(2));
    // the old versions stay and point to the new ones
    assert_eq!(g.get(sym(CONS, 0)).unwrap().next, Some(sym(CONS, 1)));
    assert_eq!(g.get(root.sym).unwrap().next, Some(sym(ROOT, 1)));
    // the edges among the new versions are rewritten
    assert_eq!(g.get(sym(ROOT, 1)).unwrap().succs(), vec![sym(CONS, 1)]);
    assert_eq!(g.get(sym(CONS, 1)).unwrap().preds().to_vec(), vec![sym(ROOT, 1)]);
    assert_eq!(g.get(sym(CONS, 1)).unwrap().succs(), vec![leaf.sym]);
    assert_eq!(g.get(sym(CONS, 1)).unwrap().prev, None);
}

#[test]
fn repeated_mutation_yields_increasing_symbols() {
    let mut rx = list_schema();
    let (_leaf, mut leaf2, _root) = three_nodes(&mut rx);
    let mut seen = vec![leaf2.sym];
    for value in ["4", "5", "6"] {
        leaf2.fields[0] = prim(value);
        rx.on_set(&mut leaf2).unwrap();
        assert!(leaf2.sym.serial > seen.last().unwrap().serial);
        assert!(!seen.contains(&leaf2.sym));
        seen.push(leaf2.sym);
    }
    assert_eq!(seen, vec![sym(CONS, 0), sym(CONS, 1), sym(CONS, 2), sym(CONS, 3)]);
}

#[test]
fn a_stale_handle_is_resolved_to_the_current_version() {
    let mut rx = list_schema();
    let (_leaf, mut leaf2, _root) = three_nodes(&mut rx);
    let mut stale = leaf2.duplicate();
    leaf2.fields[0] = prim("4");
    rx.on_set(&mut leaf2).unwrap();
    stale.fields[0] = prim("9");
    let batch = rx.on_set(&mut stale).unwrap();
    assert_eq!(batch.olds, vec![sym(ROOT, 1), sym(CONS, 1)]);
    assert_eq!(stale.sym, sym(CONS, 2));
    assert_eq!(batch.text, "(let cons2 (ConsV  9 leaf0))(let root2 (Wrap  cons2))");
}

#[test]
fn latest_of_latest_is_latest() {
    let mut rx = list_schema();
    let (leaf, mut leaf2, root) = three_nodes(&mut rx);
    leaf2.fields[0] = prim("4");
    rx.on_set(&mut leaf2).unwrap();
    leaf2.fields[0] = prim("5");
    rx.on_set(&mut leaf2).unwrap();
    for s in [leaf.sym, sym(CONS, 0), sym(CONS, 1), sym(CONS, 2), root.sym] {
        let once = rx.rx.map_latest(s).unwrap();
        assert_eq!(rx.rx.map_latest(once), Ok(once));
    }
    assert_eq!(rx.rx.map_latest(sym(CONS, 0)), Ok(sym(CONS, 2)));
    assert_eq!(rx.rx.map_latest(root.sym), Ok(sym(ROOT, 2)));
    assert_eq!(rx.rx.map_latest(leaf.sym), Ok(leaf.sym));
    // a symbol without record is a bad reference
    assert_eq!(rx.rx.map_latest(sym(ROOT, 9)), Err(RxError::BadReference(sym(ROOT, 9))));
}

#[test]
fn ancestors_are_collected_without_the_start() {
    let mut rx = list_schema();
    let (leaf, leaf2, root) = three_nodes(&mut rx);
    let mut found = SymSet::new();
    rx.rx.collect_latest_ancestors(leaf.sym, &mut found).unwrap();
    assert_eq!(found.to_vec(), vec![leaf2.sym, root.sym]);
    let mut none = SymSet::new();
    rx.rx.collect_latest_ancestors(root.sym, &mut none).unwrap();
    assert_eq!(none.len(), 0);
    let mut bad = SymSet::new();
    assert_eq!(
        rx.rx.collect_latest_ancestors(sym(LEAF, 5), &mut bad),
        Err(RxError::BadReference(sym(LEAF, 5)))
    );
}

#[test]
fn ancestors_with_a_newer_version_are_passed_over() {
    let mut rx = list_schema();
    let (leaf, mut leaf2, _root) = three_nodes(&mut rx);
    leaf2.fields[0] = prim("4");
    rx.on_set(&mut leaf2).unwrap();
    // Leaf lists both versions of Leaf2; the old one is current no longer
    let mut found = SymSet::new();
    rx.rx.collect_latest_ancestors(leaf.sym, &mut found).unwrap();
    assert_eq!(found.len(), 2);
    assert!(found.contains(sym(CONS, 1)));
    assert!(found.contains(sym(ROOT, 1)));
    assert!(!found.contains(sym(CONS, 0)));
}

#[test]
fn a_later_change_of_a_child_reaches_the_new_versions_of_its_parents() {
    let mut rx = list_schema();
    let (mut leaf, mut leaf2, _root) = three_nodes(&mut rx);
    leaf2.fields[0] = prim("4");
    rx.on_set(&mut leaf2).unwrap();
    leaf.fields[0] = prim("7");
    let batch = rx.on_set(&mut leaf).unwrap();
    assert_eq!(leaf.sym, sym(LEAF, 1));
    let mut olds = batch.olds.clone();
    olds.sort_by_key(|s| (s.ty, s.serial));
    assert_eq!(olds, vec![sym(LEAF, 0), sym(CONS, 1), sym(ROOT, 1)]);
    assert_eq!(batch.order, vec![sym(LEAF, 1), sym(CONS, 2), sym(ROOT, 2)]);
    assert_eq!(
        batch.text,
        "(let leaf1 (LeafV  7))(let cons2 (ConsV  4 leaf1))(let root2 (Wrap  cons2))"
    );
    let g = rx.rx.graph();
    // the current versions name current versions only
    assert_eq!(g.get(sym(CONS, 2)).unwrap().succs(), vec![sym(LEAF, 1)]);
    assert_eq!(g.get(sym(ROOT, 2)).unwrap().succs(), vec![sym(CONS, 2)]);
    assert_eq!(g.get(sym(CONS, 1)).unwrap().next, Some(sym(CONS, 2)));
    assert_eq!(g.get(sym(ROOT, 1)).unwrap().next, Some(sym(ROOT, 2)));
    rx.interpret("(check (= root2 (Wrap (ConsV 4 (LeafV 7)))))".to_string()).unwrap();
}

#[test]
fn a_search_from_an_unknown_node_leaves_the_set_as_it_was() {
    let mut rx = list_schema();
    let (leaf, _leaf2, _root) = three_nodes(&mut rx);
    let mut set = SymSet::new();
    set.insert(leaf.sym);
    assert_eq!(
        rx.rx.collect_latest_ancestors(sym(CONS, 9), &mut set),
        Err(RxError::BadReference(sym(CONS, 9)))
    );
    assert_eq!(set.to_vec(), vec![leaf.sym]);
}

#[test]
fn a_child_without_record_is_a_bad_reference() {
    let mut rx = list_schema();
    let missing = sym(LEAF, 3);
    let r = rx.on_new(CONS, "ConsV".to_string(), vec![prim("2"), Field::Child(missing)]);
    assert_eq!(r.err(), Some(RxError::BadReference(missing)));
    assert_eq!(rx.rx.graph().counter(CONS), Some(0));
    assert!(!rx.rx.graph().contains(sym(CONS, 0)));
}

#[test]
fn mutating_an_unregistered_node_is_a_bad_reference() {
    let mut rx = list_schema();
    let mut stranger = Node::new(sym(LEAF, 4), "LeafV".to_string(), vec![prim("1")]);
    assert_eq!(rx.on_set(&mut stranger).err(), Some(RxError::BadReference(sym(LEAF, 4))));
    assert_eq!(stranger.sym, sym(LEAF, 4));
}

#[test]
fn mutating_to_an_unregistered_child_is_a_bad_reference() {
    let mut rx = list_schema();
    let (_leaf, mut leaf2, _root) = three_nodes(&mut rx);
    leaf2.fields[1] = Field::Child(sym(LEAF, 8));
    assert_eq!(rx.on_set(&mut leaf2).err(), Some(RxError::BadReference(sym(LEAF, 8))));
    assert_eq!(leaf2.sym, sym(CONS, 0));
    assert_eq!(rx.rx.graph().get(sym(CONS, 0)).unwrap().next, None);
}

#[test]
fn an_unknown_type_is_unsupported() {
    let mut rx = list_schema();
    let r = rx.on_new(7, "LeafV".to_string(), vec![prim("1")]);
    assert_eq!(r.err(), Some(RxError::UnsupportedOperation));
}

#[test]
fn a_rejected_assertion_registers_nothing() {
    let mut rx = list_schema();
    let r = rx.on_new(LEAF, "NoSuchVariant".to_string(), vec![prim("1")]);
    assert_eq!(r.err(), Some(RxError::BackendRejection));
    assert!(!rx.rx.graph().contains(sym(LEAF, 0)));
    // the symbol is spent
    assert_eq!(rx.rx.graph().counter(LEAF), Some(1));
}

#[test]
fn rejected_declarations_make_no_engine() {
    let defs = "(datatype* (Leaf".to_string();
    let answer = EGraph::default().parse_and_run_program(None, &defs);
    let r = RxNoVT::new_with_type_defs(defs, vec!["leaf".to_string()], answer);
    assert_eq!(r.err(), Some(RxError::BackendRejection));
}

#[test]
fn a_node_is_prepared_before_it_is_registered() {
    let mut rig = list_schema();
    let (node, text) = rig.rx.on_new(LEAF, "LeafV".to_string(), vec![prim("1")]).unwrap();
    assert_eq!(node.sym, sym(LEAF, 0));
    assert_eq!(text, "(let leaf0 (LeafV  1))");
    // the symbol is spent, and the graph learns of the node with the answer
    assert_eq!(rig.rx.graph().counter(LEAF), Some(1));
    assert!(!rig.rx.graph().contains(node.sym));
    let answer = rig.engine.parse_and_run_program(None, &text);
    assert_eq!(rig.rx.add_node(&node, answer), Ok(()));
    assert!(rig.rx.graph().contains(node.sym));
}

#[test]
fn an_accepted_node_with_an_unknown_child_is_not_registered() {
    let mut rig = list_schema();
    let leaf = rig.on_new(LEAF, "LeafV".to_string(), vec![prim("1")]).unwrap();
    let (mut node, _text) = rig
        .rx
        .on_new(CONS, "ConsV".to_string(), vec![prim("2"), Field::Child(leaf.sym)])
        .unwrap();
    node.fields[1] = Field::Child(sym(LEAF, 6));
    let answer = rig.engine.parse_and_run_program(None, "(let other (LeafV 6))");
    assert_eq!(rig.rx.add_node(&node, answer), Err(RxError::BadReference(sym(LEAF, 6))));
    assert!(!rig.rx.graph().contains(node.sym));
}

#[test]
fn the_engine_binds_what_was_sent() {
    let mut rx = list_schema();
    let (_leaf, mut leaf2, _root) = three_nodes(&mut rx);
    leaf2.fields[0] = prim("4");
    rx.on_set(&mut leaf2).unwrap();
    rx.interpret("(check (= root1 (Wrap (ConsV 4 (LeafV 1)))))".to_string()).unwrap();
    rx.interpret("(check (= root0 (Wrap (ConsV 2 (LeafV 1)))))".to_string()).unwrap();
    assert_eq!(
        rx.interpret("(check (= root1 root0))".to_string()),
        Err(RxError::BackendRejection)
    );
}
