use egglog::EGraph;
use egglog_wrapper::emit::Batch;
use egglog_wrapper::error::RxError;
use egglog_wrapper::node::{Field, Node};
use egglog_wrapper::rx::RxNoVT;
use egglog_wrapper::sym::Sym;
use egglog_wrapper::symset::SymSet;
use egglog_wrapper::topo::TopoDirection;

const A: u32 = 0;
const B: u32 = 1;

/// An engine of the eager protocol with the reasoning engine it is kept in
/// step with.
struct Rig {
    rx: RxNoVT,
    engine: EGraph,
}

impl Rig {
    fn on_new(&mut self, ty: u32, variant: String, fields: Vec<Field>) -> Result<Node, RxError> {
        let (node, text) = self.rx.on_new(ty, variant, fields)?;
        let answer = self.engine.parse_and_run_program(None, &text);
        self.rx.add_node(&node, answer)?;
        Ok(node)
    }

    fn on_set(&mut self, node: &mut Node) -> Result<Batch, RxError> {
        let batch = self.rx.on_set(node)?;
        let answer = self.engine.parse_and_run_program(None, &batch.text);
        self.rx.receive(batch.text.clone(), answer)?;
        Ok(batch)
    }
}

fn ring_schema() -> Rig {
    let defs = "(datatype* (A (ACon B)) (B (BCon A) (Empty)))".to_string();
    let mut engine = EGraph::default();
    let answer = engine.parse_and_run_program(None, &defs);
    let names = vec!["a".to_string(), "b".to_string()];
    Rig { rx: RxNoVT::new_with_type_defs(defs, names, answer).unwrap(), engine }
}

#[test]
fn closing_a_cycle_is_refused() {
    let mut rx = ring_schema();
    let empty = rx.on_new(B, "Empty".to_string(), vec![]).unwrap();
    let mut a = rx.on_new(A, "ACon".to_string(), vec![Field::Child(empty.sym)]).unwrap();
    let b = rx.on_new(B, "BCon".to_string(), vec![Field::Child(a.sym)]).unwrap();
    a.fields[0] = Field::Child(b.sym);
    assert_eq!(rx.on_set(&mut a).err(), Some(RxError::CycleViolation));
}

#[test]
fn a_refused_cycle_leaves_everything_as_it_was() {
    let mut rx = ring_schema();
    let empty = rx.on_new(B, "Empty".to_string(), vec![]).unwrap();
    let mut a = rx.on_new(A, "ACon".to_string(), vec![Field::Child(empty.sym)]).unwrap();
    let b = rx.on_new(B, "BCon".to_string(), vec![Field::Child(a.sym)]).unwrap();
    a.fields[0] = Field::Child(b.sym);
    assert_eq!(rx.on_set(&mut a).err(), Some(RxError::CycleViolation));
    let a0 = Sym { ty: A, serial: 0 };
    assert_eq!(a.sym, a0);
    let g = rx.rx.graph();
    assert_eq!(g.counter(A), Some(1));
    assert_eq!(g.counter(B), Some(2));
    assert!(!g.contains(Sym { ty: A, serial: 1 }));
    assert!(!g.contains(Sym { ty: B, serial: 2 }));
    assert_eq!(g.get(a0).unwrap().next, None);
    assert_eq!(g.get(a0).unwrap().succs(), vec![empty.sym]);
    assert_eq!(g.get(b.sym).unwrap().next, None);
    assert_eq!(g.get(b.sym).unwrap().preds().to_vec(), Vec::<Sym>::new());
    assert_eq!(g.get(empty.sym).unwrap().preds().to_vec(), vec![a0]);
    // a change that closes no circle goes through afterwards
    a.fields[0] = Field::Child(empty.sym);
    let batch = rx.on_set(&mut a).unwrap();
    assert_eq!(batch.order, vec![Sym { ty: A, serial: 1 }, Sym { ty: B, serial: 2 }]);
}

#[test]
fn a_node_that_names_itself_is_refused() {
    let mut rx = ring_schema();
    let empty = rx.on_new(B, "Empty".to_string(), vec![]).unwrap();
    let a = rx.on_new(A, "ACon".to_string(), vec![Field::Child(empty.sym)]).unwrap();
    let mut b = rx.on_new(B, "BCon".to_string(), vec![Field::Child(a.sym)]).unwrap();
    b.fields[0] = Field::Child(b.sym);
    assert_eq!(rx.on_set(&mut b).err(), Some(RxError::CycleViolation));
    assert_eq!(b.sym, Sym { ty: B, serial: 1 });
    assert_eq!(rx.rx.graph().get(b.sym).unwrap().next, None);
    assert_eq!(rx.rx.graph().counter(B), Some(2));
}

#[test]
fn members_of_a_chain_can_be_sent_alone() {
    let mut rx = ring_schema();
    let empty = rx.on_new(B, "Empty".to_string(), vec![]).unwrap();
    let a = rx.on_new(A, "ACon".to_string(), vec![Field::Child(empty.sym)]).unwrap();
    let mut one = SymSet::new();
    one.insert(a.sym);
    assert_eq!(rx.rx.graph().topo_sort(&one, TopoDirection::Up), Ok(vec![a.sym]));
}

#[test]
fn a_start_with_a_child_among_the_members_is_a_cycle() {
    let mut rx = ring_schema();
    let empty = rx.on_new(B, "Empty".to_string(), vec![]).unwrap();
    let a = rx.on_new(A, "ACon".to_string(), vec![Field::Child(empty.sym)]).unwrap();
    let mut members = SymSet::new();
    members.insert(empty.sym);
    members.insert(a.sym);
    let mut starts = SymSet::new();
    starts.insert(empty.sym);
    assert_eq!(rx.rx.topo_sort(&starts, &members), Ok(vec![empty.sym, a.sym]));
    let mut wrong = SymSet::new();
    wrong.insert(a.sym);
    assert_eq!(rx.rx.topo_sort(&wrong, &members), Err(RxError::CycleViolation));
}

#[test]
fn members_without_record_are_bad_references() {
    let rx = ring_schema();
    let mut members = SymSet::new();
    members.insert(Sym { ty: A, serial: 0 });
    assert_eq!(
        rx.rx.graph().topo_sort(&members, TopoDirection::Up),
        Err(RxError::BadReference(Sym { ty: A, serial: 0 }))
    );
}

#[test]
fn both_directions_order_a_chain() {
    let mut rx = ring_schema();
    let empty = rx.on_new(B, "Empty".to_string(), vec![]).unwrap();
    let a = rx.on_new(A, "ACon".to_string(), vec![Field::Child(empty.sym)]).unwrap();
    let b = rx.on_new(B, "BCon".to_string(), vec![Field::Child(a.sym)]).unwrap();
    let mut members = SymSet::new();
    members.insert(b.sym);
    members.insert(a.sym);
    members.insert(empty.sym);
    assert_eq!(
        rx.rx.graph().topo_sort(&members, TopoDirection::Up),
        Ok(vec![empty.sym, a.sym, b.sym])
    );
    assert_eq!(
        rx.rx.graph().topo_sort(&members, TopoDirection::Down),
        Ok(vec![b.sym, a.sym, empty.sym])
    );
    // edges to nodes outside the set do not count
    let mut upper = SymSet::new();
    upper.insert(b.sym);
    upper.insert(a.sym);
    assert_eq!(rx.rx.graph().topo_sort(&upper, TopoDirection::Up), Ok(vec![a.sym, b.sym]));
    assert_eq!(RxNoVT::degree_in_subgraph(&vec![a.sym, empty.sym, a.sym], &upper), 2);
}
