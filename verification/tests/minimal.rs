use egglog::EGraph;
use egglog_wrapper::error::RxError;
use egglog_wrapper::node::{Field, Node};
use egglog_wrapper::sym::{Sym, TyCounter};
use egglog_wrapper::tx_minimal::{RxMinimal, TxCommand, TxMinimal};

/// An engine of the minimal variant with the reasoning engine it writes for.
struct Rig {
    tx: TxMinimal,
    engine: EGraph,
}

impl Rig {
    fn on_new(&mut self, node: &Node) -> Result<String, RxError> {
        let text = self.tx.render_new(node)?;
        let answer = self.engine.parse_and_run_program(None, &text);
        self.tx.on_new(node, answer)
    }

    fn on_func_set(&mut self, name: &str, inputs: &Vec<Sym>, output: Sym) -> Result<String, RxError> {
        let text = self.tx.render_func_set(name, inputs, output)?;
        let answer = self.engine.parse_and_run_program(None, &text);
        self.tx.on_func_set(name, inputs, output, answer)
    }

    fn interpret(&mut self, s: String) -> Result<(), RxError> {
        let answer = self.engine.parse_and_run_program(None, &s);
        self.tx.interpret(s, answer)
    }

    fn send(&mut self, text: &str) -> Result<(), RxError> {
        let answer = self.engine.parse_and_run_program(None, text);
        self.tx.send(TxCommand::StringCommand { string_command: text.to_string() }, answer)
    }
}

fn engine() -> Rig {
    let defs =
        "(datatype* (Leaf (LeafV i64)) (Cons (ConsV i64 Leaf))) (function Best (Leaf Leaf) Cons :no-merge)"
            .to_string();
    let mut engine = EGraph::default();
    let answer = engine.parse_and_run_program(None, &defs);
    let names = vec!["leaf".to_string(), "cons".to_string()];
    Rig { tx: TxMinimal::new_with_string_type_defs(defs, names, answer).unwrap(), engine }
}

fn leaf(serial: u32, value: &str) -> Node {
    Node::new(Sym { ty: 0, serial }, "LeafV".to_string(), vec![Field::Prim(value.to_string())])
}

#[test]
fn new_renders_one_assertion_and_set_is_unsupported() {
    let mut rig = engine();
    let mut leaves = TyCounter::new();
    let mut leaf =
        Node::new(leaves.next_sym(0), "LeafV".to_string(), vec![Field::Prim("1".to_string())]);
    assert_eq!(rig.on_new(&leaf), Ok("(let leaf0 (LeafV  1))".to_string()));
    rig.interpret("(check (= leaf0 (LeafV 1)))".to_string()).unwrap();
    leaf.fields[0] = Field::Prim("2".to_string());
    assert_eq!(rig.tx.on_set(&mut leaf), Err(RxError::UnsupportedOperation));
    assert_eq!(leaf.sym, Sym { ty: 0, serial: 0 });
}

#[test]
fn a_node_without_fields_is_rendered_with_its_variant_alone() {
    let rig = engine();
    let node = Node::new(Sym { ty: 1, serial: 3 }, "End".to_string(), vec![]);
    assert_eq!(rig.tx.render_new(&node), Ok("(let cons3 (End ))".to_string()));
}

#[test]
fn function_outputs_are_bound_by_a_set_assertion() {
    let mut rig = engine();
    let a = leaf(0, "1");
    let b = leaf(1, "2");
    let out = Node::new(
        Sym { ty: 1, serial: 0 },
        "ConsV".to_string(),
        vec![Field::Prim("3".to_string()), Field::Child(a.sym)],
    );
    rig.on_new(&a).unwrap();
    rig.on_new(&b).unwrap();
    rig.on_new(&out).unwrap();
    let sent = rig.on_func_set("Best", &vec![a.sym, b.sym], out.sym).unwrap();
    assert_eq!(sent, "(set (Best leaf0 leaf1) cons0 )");
    rig.interpret("(check (= (Best leaf0 leaf1) cons0))".to_string()).unwrap();
    assert_eq!(
        rig.tx.render_func_set("Zero", &vec![], out.sym),
        Ok("(set (Zero) cons0 )".to_string())
    );
}

#[test]
fn symbols_of_unknown_types_are_unsupported() {
    let mut rig = engine();
    let stray = Node::new(Sym { ty: 2, serial: 0 }, "LeafV".to_string(), vec![]);
    assert_eq!(rig.on_new(&stray), Err(RxError::UnsupportedOperation));
    // whatever answer is reported for it: the node has no assertion
    assert_eq!(rig.tx.on_new(&stray, Ok(vec![])), Err(RxError::UnsupportedOperation));
    let child = Node::new(
        Sym { ty: 1, serial: 0 },
        "ConsV".to_string(),
        vec![Field::Prim("1".to_string()), Field::Child(Sym { ty: 9, serial: 0 })],
    );
    assert_eq!(rig.on_new(&child), Err(RxError::UnsupportedOperation));
    assert_eq!(
        rig.on_func_set("Best", &vec![Sym { ty: 5, serial: 0 }], Sym { ty: 1, serial: 0 }),
        Err(RxError::UnsupportedOperation)
    );
    assert_eq!(
        rig.tx.on_func_set("Best", &vec![], Sym { ty: 5, serial: 0 }, Ok(vec![])),
        Err(RxError::UnsupportedOperation)
    );
}

#[test]
fn text_is_forwarded_and_native_commands_are_unsupported() {
    let mut rig = engine();
    assert_eq!(rig.send("(let x (LeafV 5))"), Ok(()));
    assert_eq!(rig.send("(let y (NoSuch 5))"), Err(RxError::BackendRejection));
    assert_eq!(
        rig.tx.send(TxCommand::NativeCommand, Ok(vec![])),
        Err(RxError::UnsupportedOperation)
    );
}

#[test]
fn the_answer_of_the_engine_decides() {
    let mut rig = engine();
    let one = leaf(0, "1");
    let text = rig.tx.render_new(&one).unwrap();
    let rejected = rig.engine.parse_and_run_program(None, "(let z (NoSuch 1))");
    assert_eq!(rig.tx.on_new(&one, rejected), Err(RxError::BackendRejection));
    let accepted = rig.engine.parse_and_run_program(None, &text);
    assert_eq!(rig.tx.on_new(&one, accepted), Ok(text));
}

#[test]
fn the_minimal_receiver_is_the_minimal_transmitter() {
    let defs = "(datatype* (Leaf (LeafV i64)))".to_string();
    let mut engine = EGraph::default();
    let answer = engine.parse_and_run_program(None, &defs);
    let mut rx: RxMinimal =
        RxMinimal::new_with_string_type_defs(defs, vec!["leaf".to_string()], answer).unwrap();
    let one = leaf(0, "1");
    let text = rx.render_new(&one).unwrap();
    let first = engine.parse_and_run_program(None, &text);
    assert!(rx.on_new(&one, first).is_ok());
    let second = engine.parse_and_run_program(None, &text);
    assert_eq!(rx.on_new(&one, second), Err(RxError::BackendRejection));
}
