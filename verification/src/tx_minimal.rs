//! The minimal variant: assertions are rendered for the reasoning engine,
//! and nothing is remembered of the nodes. There is no working graph, so a
//! node cannot be changed.

use crate::backend::Backend;
use crate::error::RxError;
use crate::node::{names_view, node_text, typed, Node};
use crate::sorts::{collect_string_type_defs, type_defs_text, FuncSort, TySort};
use crate::sym::{sym_string, sym_text, Sym};
use vstd::prelude::*;
use vstd::string::StringExecFns;

verus! {

/// What can be sent to the reasoning engine.
#[derive(Debug)]
pub enum TxCommand {
    /// Text for the engine to parse and run.
    StringCommand { string_command: String },
    /// A command in the engine's own representation. No variant of the
    /// protocol carries these yet.
    NativeCommand,
}

/// The symbols of a list, each preceded by one blank.
pub open spec fn syms_text(names: Seq<Seq<char>>, syms: Seq<Sym>) -> Seq<char>
    decreases syms.len(),
{
    if syms.len() == 0 {
        Seq::empty()
    } else {
        syms_text(names, syms.drop_last()) + seq![' '] + sym_text(
            names[syms.last().ty as int],
            syms.last().serial,
        )
    }
}

/// The assertion that binds the output of a function for given inputs:
/// `(set (<Function> <input>*) <output> )`.
pub open spec fn func_set_text(
    names: Seq<Seq<char>>,
    func_name: Seq<char>,
    inputs: Seq<Sym>,
    output: Sym,
) -> Seq<char> {
    seq!['(', 's', 'e', 't', ' ', '('] + func_name + syms_text(names, inputs) + seq![')', ' ']
        + sym_text(names[output.ty as int], output.serial) + seq![' ', ')']
}

/// Whether every symbol of the list belongs to one of the first `types`
/// types.
pub open spec fn all_typed(syms: Seq<Sym>, types: nat) -> bool {
    forall|i: int| 0 <= i < syms.len() ==> ((#[trigger] syms[i]).ty as nat) < types
}

/// The engine of the minimal variant: the names its symbols are written
/// with and the record of what the reasoning engine was handed.
pub struct TxMinimal {
    egraph: Backend,
    names: Vec<String>,
}

/// The minimal variant under its other name.
pub type RxMinimal = TxMinimal;

impl TxMinimal {
    /// The lower-case name of each type.
    pub closed spec fn names(&self) -> Seq<Seq<char>> {
        names_view(self.names@)
    }

    /// The texts that were reported as handed to the reasoning engine,
    /// oldest first, each with the answer that was reported: `true` where
    /// the engine accepted the text.
    pub closed spec fn sent(&self) -> Seq<(Seq<char>, bool)> {
        self.egraph.sent()
    }

    /// An engine for the schema with the given declarations and lower-case
    /// type names. The declarations were handed to the reasoning engine,
    /// which gave `answer`: there is an engine where it accepted them.
    pub fn new_with_string_type_defs(
        type_defs: String,
        names: Vec<String>,
        answer: Result<Vec<String>, egglog::Error>,
    ) -> (r: Result<TxMinimal, RxError>)
        ensures
            match r {
                Ok(tx) => answer is Ok && tx.names() == names_view(names@) && tx.sent() == seq![
                    (type_defs@, true),
                ],
                Err(e) => answer is Err && e == RxError::BackendRejection,
            },
    {
        let mut egraph = Backend::new();
        match egraph.interpret(type_defs.as_str(), answer) {
            Ok(_) => Ok(TxMinimal { egraph, names }),
            Err(e) => Err(e),
        }
    }

    /// An engine for the schema with the given sorts and functions, whose
    /// declarations are written as [`collect_string_type_defs`] writes them.
    /// These were handed to the reasoning engine, which gave `answer`.
    pub fn new(
        sorts: &Vec<TySort>,
        funcs: &Vec<FuncSort>,
        names: Vec<String>,
        answer: Result<Vec<String>, egglog::Error>,
    ) -> (r: Result<TxMinimal, RxError>)
        ensures
            match r {
                Ok(tx) => answer is Ok && tx.names() == names_view(names@) && tx.sent() == seq![
                    (type_defs_text(sorts@, funcs@), true),
                ],
                Err(e) => answer is Err && e == RxError::BackendRejection,
            },
    {
        TxMinimal::new_with_string_type_defs(collect_string_type_defs(sorts, funcs), names, answer)
    }

    /// An engine for a reasoning engine that has read the schema's
    /// declarations already, with the record of what it was handed.
    pub fn with_backend(egraph: Backend, names: Vec<String>) -> (tx: TxMinimal)
        ensures
            tx.names() == names_view(names@),
            tx.sent() == egraph.sent(),
    {
        TxMinimal { egraph, names }
    }

    /// Takes note that the text `s` was handed to the reasoning engine and
    /// that the engine gave `answer`. Succeeds where the engine accepted the
    /// text.
    pub fn interpret(&mut self, s: String, answer: Result<Vec<String>, egglog::Error>) -> (r:
        Result<(), RxError>)
        ensures
            final(self).sent() == old(self).sent().push((s@, answer is Ok)),
            final(self).names() == old(self).names(),
            answer is Ok ==> r == Ok::<(), RxError>(()),
            answer is Err ==> r == Err::<(), RxError>(RxError::BackendRejection),
    {
        self.egraph.interpret(s.as_str(), answer)
    }

    /// Takes note that a command was handed to the reasoning engine, which
    /// gave `answer`. Only text can be handed over: a command in the
    /// engine's own representation is not supported, and nothing is noted
    /// of it.
    pub fn send(&mut self, sended: TxCommand, answer: Result<Vec<String>, egglog::Error>) -> (r:
        Result<(), RxError>)
        ensures
            final(self).names() == old(self).names(),
            sended is NativeCommand ==> r == Err::<(), RxError>(RxError::UnsupportedOperation)
                && final(self).sent() == old(self).sent(),
            sended matches TxCommand::StringCommand { string_command } ==> final(self).sent()
                == old(self).sent().push((string_command@, answer is Ok)),
            sended is StringCommand && answer is Ok ==> r == Ok::<(), RxError>(()),
            sended is StringCommand && answer is Err ==> r == Err::<(), RxError>(
                RxError::BackendRejection,
            ),
    {
        match sended {
            TxCommand::StringCommand { string_command } => self.interpret(string_command, answer),
            TxCommand::NativeCommand => Err(RxError::UnsupportedOperation),
        }
    }

    /// The assertion of a new node, where every symbol it holds belongs to
    /// a type of the schema.
    pub fn render_new(&self, node: &Node) -> (r: Result<String, RxError>)
        ensures
            match r {
                Ok(text) => typed(node@, self.names().len()) && text@ == node_text(
                    self.names(),
                    node@,
                ),
                Err(e) => !typed(node@, self.names().len()) && e == RxError::UnsupportedOperation,
            },
    {
        let types: usize = self.names.len();
        if node.sym.ty as usize >= types {
            return Err(RxError::UnsupportedOperation);
        }
        let succs = node.succs();
        let mut i: usize = 0;
        while i < succs.len()
            invariant
                i <= succs@.len(),
                types == self.names().len(),
                succs@ == node@.succs(),
                forall|j: int| 0 <= j < i ==> ((#[trigger] succs@[j]).ty as nat) < types,
            decreases succs.len() - i,
        {
            if succs[i].ty as usize >= types {
                assert(node@.succs()[i as int] == succs@[i as int]);
                return Err(RxError::UnsupportedOperation);
            }
            i += 1;
        }
        Ok(node.to_egglog(&self.names))
    }

    /// Takes note that the assertion of a new node, as
    /// [`TxMinimal::render_new`] writes it, was handed to the reasoning
    /// engine, which gave `answer`. Returns the assertion. A node that holds
    /// a symbol of no type of the schema has no assertion, and nothing is
    /// noted of it.
    pub fn on_new(&mut self, node: &Node, answer: Result<Vec<String>, egglog::Error>) -> (r:
        Result<String, RxError>)
        ensures
            final(self).names() == old(self).names(),
            match r {
                Ok(text) => answer is Ok && typed(node@, old(self).names().len()) && text@
                    == node_text(old(self).names(), node@) && final(self).sent() == old(
                    self,
                ).sent().push((text@, true)),
                Err(RxError::UnsupportedOperation) => !typed(node@, old(self).names().len())
                    && final(self).sent() == old(self).sent(),
                Err(RxError::BackendRejection) => answer is Err && typed(
                    node@,
                    old(self).names().len(),
                ) && final(self).sent() == old(self).sent().push(
                    (node_text(old(self).names(), node@), false),
                ),
                Err(_) => false,
            },
    {
        let text = match self.render_new(node) {
            Ok(text) => text,
            Err(e) => {
                return Err(e);
            },
        };
        match self.egraph.interpret(text.as_str(), answer) {
            Ok(_) => Ok(text),
            Err(e) => Err(e),
        }
    }

    /// Refuses: the minimal variant cannot change a node.
    pub fn on_set(&mut self, node: &mut Node) -> (r: Result<(), RxError>)
        ensures
            r == Err::<(), RxError>(RxError::UnsupportedOperation),
            final(self).names() == old(self).names(),
            final(self).sent() == old(self).sent(),
            *final(node) == *old(node),
    {
        Err(RxError::UnsupportedOperation)
    }

    /// The assertion that binds the output of a function for given inputs,
    /// where every symbol belongs to a type of the schema.
    pub fn render_func_set(&self, func_name: &str, inputs: &Vec<Sym>, output: Sym) -> (r: Result<
        String,
        RxError,
    >)
        ensures
            match r {
                Ok(text) => all_typed(inputs@.push(output), self.names().len()) && text@
                    == func_set_text(self.names(), func_name@, inputs@, output),
                Err(e) => !all_typed(inputs@.push(output), self.names().len()) && e
                    == RxError::UnsupportedOperation,
            },
    {
        let types: usize = self.names.len();
        let ghost nv = self.names();
        if output.ty as usize >= types {
            assert(inputs@.push(output)[inputs@.len() as int] == output);
            return Err(RxError::UnsupportedOperation);
        }
        let mut s = String::from_str("(set (");
        proof {
            reveal_strlit("(set (");
            reveal_strlit(") ");
            reveal_strlit(" )");
            assert(s@ =~= seq!['(', 's', 'e', 't', ' ', '(']);
        }
        s.append(func_name);
        let ghost head = s@;
        let mut i: usize = 0;
        while i < inputs.len()
            invariant
                i <= inputs@.len(),
                types == self.names.len(),
                nv == names_view(self.names@),
                forall|j: int| 0 <= j < i ==> ((#[trigger] inputs@[j]).ty as nat) < types,
                s@ == head + syms_text(nv, inputs@.take(i as int)),
            decreases inputs.len() - i,
        {
            let x: Sym = inputs[i];
            if x.ty as usize >= types {
                assert(inputs@.push(output)[i as int] == x);
                return Err(RxError::UnsupportedOperation);
            }
            proof {
                reveal_strlit(" ");
            }
            s.append(" ");
            let t = sym_string(self.names[x.ty as usize].as_str(), x.serial);
            s.append(t.as_str());
            i += 1;
            proof {
                let now = inputs@.take(i as int);
                assert(now.drop_last() =~= inputs@.take(i - 1));
                assert(now.last() == x);
                assert(s@ =~= head + syms_text(nv, now));
            }
        }
        proof {
            assert(inputs@.take(inputs@.len() as int) =~= inputs@);
            assert forall|j: int| 0 <= j < inputs@.push(output).len() implies ((
            #[trigger] inputs@.push(output)[j]).ty as nat) < types by {
                if j < inputs@.len() {
                    assert(inputs@.push(output)[j] == inputs@[j]);
                }
            }
        }
        s.append(") ");
        let t = sym_string(self.names[output.ty as usize].as_str(), output.serial);
        s.append(t.as_str());
        s.append(" )");
        assert(s@ =~= func_set_text(nv, func_name@, inputs@, output));
        Ok(s)
    }

    /// Takes note that the assertion that binds the output of a function
    /// for given inputs, as [`TxMinimal::render_func_set`] writes it, was
    /// handed to the reasoning engine, which gave `answer`. Returns the
    /// assertion. Where a symbol belongs to no type of the schema there is
    /// no assertion, and nothing is noted.
    pub fn on_func_set(
        &mut self,
        func_name: &str,
        inputs: &Vec<Sym>,
        output: Sym,
        answer: Result<Vec<String>, egglog::Error>,
    ) -> (r: Result<String, RxError>)
        ensures
            final(self).names() == old(self).names(),
            match r {
                Ok(text) => answer is Ok && all_typed(
                    inputs@.push(output),
                    old(self).names().len(),
                ) && text@ == func_set_text(old(self).names(), func_name@, inputs@, output)
                    && final(self).sent() == old(self).sent().push((text@, true)),
                Err(RxError::UnsupportedOperation) => !all_typed(
                    inputs@.push(output),
                    old(self).names().len(),
                ) && final(self).sent() == old(self).sent(),
                Err(RxError::BackendRejection) => answer is Err && all_typed(
                    inputs@.push(output),
                    old(self).names().len(),
                ) && final(self).sent() == old(self).sent().push(
                    (func_set_text(old(self).names(), func_name@, inputs@, output), false),
                ),
                Err(_) => false,
            },
    {
        let text = match self.render_func_set(func_name, inputs, output) {
            Ok(text) => text,
            Err(e) => {
                return Err(e);
            },
        };
        match self.egraph.interpret(text.as_str(), answer) {
            Ok(_) => Ok(text),
            Err(e) => Err(e),
        }
    }
}

} // verus!
