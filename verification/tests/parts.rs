use egglog_wrapper::node::{Field, Node, WorkAreaNode};
use egglog_wrapper::sorts::{collect_string_type_defs, FuncSort, RelationSort, TySort};
use egglog_wrapper::staged::StagedNodes;
use egglog_wrapper::store::NodeStore;
use egglog_wrapper::sym::{Sym, TyCounter};
use egglog_wrapper::syms::Syms;
use egglog_wrapper::symset::SymSet;
use egglog_wrapper::graph::WorkingGraph;
use egglog_wrapper::error::RxError;

fn sym(ty: u32, serial: u32) -> Sym {
    Sym { ty, serial }
}

fn leaf(serial: u32, value: &str) -> Node {
    Node::new(sym(0, serial), "LeafV".to_string(), vec![Field::Prim(value.to_string())])
}

#[test]
fn type_definitions_are_wrapped_in_one_datatype_form() {
    let sorts = vec![TySort("(A (ACon B))"), TySort("(B (Empty))")];
    let funcs = vec![FuncSort("(function F (A) B :no-merge)")];
    assert_eq!(
        collect_string_type_defs(&sorts, &funcs),
        "(datatype* (A (ACon B))(B (Empty)) ) (function F (A) B :no-merge)"
    );
    assert_eq!(collect_string_type_defs(&vec![], &vec![]), "(datatype*  ) ");
    assert_eq!(RelationSort("(relation R (A))").0, "(relation R (A))");
}

#[test]
fn nodes_are_rendered_with_their_fields_in_order() {
    let names = vec!["leaf".to_string(), "cons".to_string()];
    let node = Node::new(
        sym(1, 12),
        "ConsV".to_string(),
        vec![Field::Child(sym(0, 3)), Field::Prim("-7".to_string()), Field::Child(sym(1, 0))],
    );
    assert_eq!(node.to_egglog(&names), "(let cons12 (ConsV  leaf3 -7 cons0))");
    assert_eq!(node.succs(), vec![sym(0, 3), sym(1, 0)]);
    assert_eq!(node.cur_sym(), sym(1, 12));
}

#[test]
fn children_can_be_rewritten_in_place() {
    let names = vec!["leaf".to_string(), "cons".to_string()];
    let mut node = Node::new(
        sym(1, 0),
        "ConsV".to_string(),
        vec![Field::Child(sym(0, 3)), Field::Prim("1".to_string()), Field::Child(sym(0, 4))],
    );
    let copy = node.duplicate();
    node.set_succs(&vec![sym(0, 8), sym(0, 9)]);
    assert_eq!(node.to_egglog(&names), "(let cons0 (ConsV  leaf8 1 leaf9))");
    assert_eq!(copy.to_egglog(&names), "(let cons0 (ConsV  leaf3 1 leaf4))");
}

#[test]
fn a_node_takes_the_next_symbol_of_its_type() {
    let mut cons = TyCounter::new();
    cons.inc();
    let mut node = Node::new(sym(1, 0), "ConsV".to_string(), vec![Field::Child(sym(0, 3))]);
    assert_eq!(node.next_sym(&mut cons), sym(1, 1));
    assert_eq!(node.sym, sym(1, 1));
    assert_eq!(node.succs(), vec![sym(0, 3)]);
    assert_eq!(cons.get_counter(), 2);
}

#[test]
fn symbol_lists_keep_insertion_order() {
    let mut s = Syms::new();
    assert_eq!(s.len(), 0);
    for i in 0..6 {
        s.push(sym(0, i));
    }
    assert_eq!(s.len(), 6);
    assert_eq!(s.get(4), sym(0, 4));
    assert_eq!(s.as_slice()[5], sym(0, 5));
    let copy = s.duplicate();
    s.push(sym(1, 1));
    assert_eq!(copy.len(), 6);
    assert_eq!(s.to_vec().last(), Some(&sym(1, 1)));
    assert_eq!(Syms::from_slice(&[sym(2, 2), sym(3, 3)]).to_vec(), vec![sym(2, 2), sym(3, 3)]);
}

#[test]
fn symbol_sets_hold_each_symbol_once() {
    let mut s = SymSet::new();
    assert!(s.insert(sym(0, 1)));
    assert!(s.insert(sym(1, 0)));
    assert!(!s.insert(sym(0, 1)));
    assert_eq!(s.len(), 2);
    assert!(s.contains(sym(1, 0)));
    assert!(!s.contains(sym(0, 0)));
    assert_eq!(s.get_index_of(sym(1, 0)), Some(1));
    assert_eq!(s.get_index_of(sym(1, 1)), None);
    assert_eq!(s.get_index(0), Some(sym(0, 1)));
    assert_eq!(s.get_index(2), None);
    assert_eq!(s.to_vec(), vec![sym(0, 1), sym(1, 0)]);
    assert_eq!(SymSet::from_distinct(&vec![sym(4, 4), sym(3, 3)]).to_vec(), vec![sym(4, 4), sym(3, 3)]);
}

#[test]
fn staged_nodes_keep_their_place_when_replaced() {
    let mut s = StagedNodes::new();
    s.insert(sym(0, 0), leaf(0, "1"));
    s.insert(sym(0, 1), leaf(1, "2"));
    s.insert(sym(0, 0), leaf(0, "3"));
    assert_eq!(s.len(), 2);
    assert_eq!(s.keys(), vec![sym(0, 0), sym(0, 1)]);
    let names = vec!["leaf".to_string()];
    assert_eq!(s.get(sym(0, 0)).unwrap().to_egglog(&names), "(let leaf0 (LeafV  3))");
    assert!(s.get(sym(0, 2)).is_none());
    assert!(s.contains_key(sym(0, 1)));
    assert_eq!(s.get_index_of(sym(0, 1)), Some(1));
    let (k, n) = s.get_index(1).unwrap();
    assert_eq!(k, sym(0, 1));
    assert_eq!(n.to_egglog(&names), "(let leaf1 (LeafV  2))");
    let (gone, _) = s.remove_index(0).unwrap();
    assert_eq!(gone, sym(0, 0));
    assert_eq!(s.keys(), vec![sym(0, 1)]);
    assert!(s.remove_index(3).is_none());
    assert!(!s.contains_key(sym(0, 0)));
}

#[test]
fn the_store_binds_symbols_to_records() {
    let mut store = NodeStore::new();
    assert!(!store.contains(sym(0, 0)));
    assert!(store.get(sym(0, 0)).is_none());
    store.insert(sym(0, 0), WorkAreaNode::new(leaf(0, "1")));
    let mut changed = WorkAreaNode::new(leaf(0, "1"));
    changed.next = Some(sym(0, 1));
    changed.preds.push(sym(1, 0));
    store.insert(sym(0, 0), changed);
    store.insert(sym(0, 1), WorkAreaNode::new(leaf(1, "2")));
    assert!(store.contains(sym(0, 1)));
    let back = store.get(sym(0, 0)).unwrap();
    assert_eq!(back.next, Some(sym(0, 1)));
    assert_eq!(back.preds().to_vec(), vec![sym(1, 0)]);
    assert_eq!(store.get(sym(0, 1)).unwrap().egglog.sym, sym(0, 1));
}

#[test]
fn a_graph_mints_registers_and_resolves() {
    let mut g = WorkingGraph::new(vec!["leaf".to_string(), "cons".to_string()]);
    assert_eq!(g.types(), 2);
    assert_eq!(g.counter(1), Some(0));
    assert_eq!(g.counter(2), None);
    let a = g.mint(0);
    let b = g.mint(0);
    assert_eq!((a, b), (sym(0, 0), sym(0, 1)));
    g.register(&leaf(0, "1"), true).unwrap();
    let c = g.mint(1);
    let parent = Node::new(c, "ConsV".to_string(), vec![Field::Prim("2".to_string()), Field::Child(a)]);
    g.register(&parent, false).unwrap();
    assert_eq!(g.get(a).unwrap().preds().to_vec(), vec![c]);
    let orphan = Node::new(b, "LeafV".to_string(), vec![Field::Child(sym(1, 9))]);
    assert_eq!(g.register(&orphan, true), Err(RxError::BadReference(sym(1, 9))));
    assert!(!g.contains(b));
    assert_eq!(g.locate_latest(a), Ok(a));
    assert_eq!(g.locate_latest(sym(1, 7)), Err(RxError::BadReference(sym(1, 7))));
    assert_eq!(g.render_all(&vec![a, c]), "(let leaf0 (LeafV  1))(let cons0 (ConsV  2 leaf0))");
}

#[test]
fn a_versioning_step_lists_each_new_version_with_its_children() {
    let mut g = WorkingGraph::new(vec!["leaf".to_string(), "cons".to_string()]);
    let a = g.mint(0);
    g.register(&leaf(0, "1"), true).unwrap();
    let c = g.mint(1);
    let parent = Node::new(
        c,
        "Two".to_string(),
        vec![Field::Child(a), Field::Prim("2".to_string()), Field::Child(a)],
    );
    g.register(&parent, true).unwrap();
    // registering lists a parent once for each mention
    assert_eq!(g.get(a).unwrap().preds().to_vec(), vec![c, c]);
    let mut olds = SymSet::new();
    olds.insert(c);
    let (news, order) = g.version_up(&olds, &StagedNodes::new(), false).unwrap();
    assert_eq!(news, vec![sym(1, 1)]);
    assert_eq!(order, vec![sym(1, 1)]);
    assert_eq!(g.counter(1), Some(2));
    assert_eq!(g.get(c).unwrap().next, Some(sym(1, 1)));
    assert_eq!(g.get(sym(1, 1)).unwrap().succs(), vec![a, a]);
    // the child that kept its version lists the new parent once
    assert_eq!(g.get(a).unwrap().preds().to_vec(), vec![c, c, sym(1, 1)]);
}

#[test]
fn a_versioning_step_that_would_close_a_circle_writes_nothing() {
    let mut g = WorkingGraph::new(vec!["leaf".to_string(), "cons".to_string()]);
    let a = g.mint(0);
    g.register(&leaf(0, "1"), true).unwrap();
    let c = g.mint(1);
    let parent = Node::new(c, "ConsV".to_string(), vec![Field::Child(a)]);
    g.register(&parent, true).unwrap();
    // the leaf is to name its own parent
    let mut olds = SymSet::new();
    olds.insert(c);
    olds.insert(a);
    let mut repl = StagedNodes::new();
    repl.insert(a, Node::new(a, "Up".to_string(), vec![Field::Child(c)]));
    assert_eq!(g.version_up(&olds, &repl, false), Err(RxError::CycleViolation));
    assert_eq!(g.counter(0), Some(1));
    assert_eq!(g.counter(1), Some(1));
    assert!(!g.contains(sym(0, 1)));
    assert!(!g.contains(sym(1, 1)));
    assert_eq!(g.get(a).unwrap().next, None);
    assert_eq!(g.get(c).unwrap().next, None);
    assert_eq!(g.get(a).unwrap().preds().to_vec(), vec![c]);
}

#[test]
fn a_list_of_symbols_knows_its_members() {
    let mut list = Syms::new();
    assert!(!list.lists(sym(0, 1)));
    list.push(sym(0, 1));
    list.push(sym(1, 1));
    assert!(list.lists(sym(0, 1)));
    assert!(list.lists(sym(1, 1)));
    assert!(!list.lists(sym(1, 0)));
}
