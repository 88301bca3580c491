//! Nodes: instances of schema variants, and the record the working graph
//! keeps for each of them.

use crate::sym::{sym_string, sym_text, Sym, TyCounter};
use crate::syms::Syms;
use vstd::prelude::*;
use vstd::string::StringExecFns;

verus! {

/// One field of a node: a primitive value, already written as the reasoning
/// engine reads it, or a reference to a child node.
#[derive(Debug)]
pub enum Field {
    Prim(String),
    Child(Sym),
}

/// What a [`Field`] holds.
pub enum FieldView {
    Prim(Seq<char>),
    Child(Sym),
}

impl View for Field {
    type V = FieldView;

    open spec fn view(&self) -> FieldView {
        match self {
            Field::Prim(s) => FieldView::Prim(s@),
            Field::Child(c) => FieldView::Child(*c),
        }
    }
}

impl Field {
    pub fn duplicate(&self) -> (f: Field)
        ensures
            f@ == self@,
    {
        match self {
            Field::Prim(s) => Field::Prim(s.clone()),
            Field::Child(c) => Field::Child(*c),
        }
    }
}

/// The views of a list of fields, in order.
pub open spec fn fields_view(fields: Seq<Field>) -> Seq<FieldView> {
    Seq::new(fields.len(), |i: int| fields[i]@)
}

/// The children among a list of fields, in field order; a child named twice
/// comes twice.
pub open spec fn children(fields: Seq<FieldView>) -> Seq<Sym>
    decreases fields.len(),
{
    if fields.len() == 0 {
        Seq::empty()
    } else {
        match fields.last() {
            FieldView::Child(c) => children(fields.drop_last()).push(c),
            FieldView::Prim(_) => children(fields.drop_last()),
        }
    }
}

/// The fields with every child reference replaced by its image under `f`.
pub open spec fn relink_fields(fields: Seq<FieldView>, f: spec_fn(Sym) -> Sym) -> Seq<FieldView> {
    Seq::new(
        fields.len(),
        |i: int|
            match fields[i] {
                FieldView::Child(c) => FieldView::Child(f(c)),
                FieldView::Prim(s) => FieldView::Prim(s),
            },
    )
}

/// Relinking the fields relinks the children one by one.
pub proof fn lemma_children_relink(fields: Seq<FieldView>, f: spec_fn(Sym) -> Sym)
    ensures
        children(relink_fields(fields, f)) == children(fields).map_values(f),
    decreases fields.len(),
{
    let r = relink_fields(fields, f);
    if fields.len() == 0 {
        assert(children(r) =~= children(fields).map_values(f));
    } else {
        lemma_children_relink(fields.drop_last(), f);
        assert(r.drop_last() =~= relink_fields(fields.drop_last(), f));
        match fields.last() {
            FieldView::Child(c) => {
                assert(r.last() == FieldView::Child(f(c)));
                assert(children(fields.drop_last()).push(c).map_values(f) =~= children(
                    fields.drop_last(),
                ).map_values(f).push(f(c)));
            },
            FieldView::Prim(s) => {
                assert(r.last() == FieldView::Prim(s));
            },
        }
    }
}

/// An instance of a schema variant: its own symbol, the variant's name and
/// the fields in declaration order.
#[derive(Debug)]
pub struct Node {
    pub sym: Sym,
    pub variant: String,
    pub fields: Vec<Field>,
}

/// What a [`Node`] holds.
pub struct NodeView {
    pub sym: Sym,
    pub variant: Seq<char>,
    pub fields: Seq<FieldView>,
}

impl NodeView {
    /// The symbols of the node's children, in field order.
    pub open spec fn succs(self) -> Seq<Sym> {
        children(self.fields)
    }

    /// The same payload under another symbol.
    pub open spec fn with_sym(self, sym: Sym) -> NodeView {
        NodeView { sym, ..self }
    }

    /// The same node with every child reference replaced by its image.
    pub open spec fn relinked(self, f: spec_fn(Sym) -> Sym) -> NodeView {
        NodeView { fields: relink_fields(self.fields, f), ..self }
    }
}

impl View for Node {
    type V = NodeView;

    open spec fn view(&self) -> NodeView {
        NodeView { sym: self.sym, variant: self.variant@, fields: fields_view(self.fields@) }
    }
}

/// Text of one field: a primitive as it stands, a child by its symbol.
pub open spec fn field_text(names: Seq<Seq<char>>, f: FieldView) -> Seq<char> {
    match f {
        FieldView::Prim(s) => s,
        FieldView::Child(c) => sym_text(names[c.ty as int], c.serial),
    }
}

/// Text of a list of fields: each preceded by one blank.
pub open spec fn fields_text(names: Seq<Seq<char>>, fields: Seq<FieldView>) -> Seq<char>
    decreases fields.len(),
{
    if fields.len() == 0 {
        Seq::empty()
    } else {
        fields_text(names, fields.drop_last()) + seq![' '] + field_text(names, fields.last())
    }
}

/// The assertion that binds a node's symbol to its term:
/// `(let <symbol> (<Variant> <field>*))`.
pub open spec fn node_text(names: Seq<Seq<char>>, n: NodeView) -> Seq<char> {
    seq!['(', 'l', 'e', 't', ' '] + sym_text(names[n.sym.ty as int], n.sym.serial) + seq![' ', '(']
        + n.variant + seq![' '] + fields_text(names, n.fields) + seq![')', ')']
}

/// The lower-case names of the schema types, by type index.
pub open spec fn names_view(names: Seq<String>) -> Seq<Seq<char>> {
    Seq::new(names.len(), |i: int| names[i]@)
}

/// Whether every symbol a node holds belongs to one of the first `n` types.
pub open spec fn typed(n: NodeView, types: nat) -> bool {
    &&& (n.sym.ty as nat) < types
    &&& forall|i: int| 0 <= i < n.succs().len() ==> ((#[trigger] n.succs()[i]).ty as nat) < types
}

/// The symbols of the children among a list of fields, in field order.
pub fn field_children(fields: &Vec<Field>) -> (v: Vec<Sym>)
    ensures
        v@ == children(fields_view(fields@)),
{
    let ghost all = fields_view(fields@);
    let mut v: Vec<Sym> = Vec::new();
    let mut i: usize = 0;
    while i < fields.len()
        invariant
            i <= fields.len(),
            all == fields_view(fields@),
            v@ == children(all.take(i as int)),
        decreases fields.len() - i,
    {
        let ghost before = all.take(i as int);
        match &fields[i] {
            Field::Child(c) => {
                v.push(*c);
            },
            Field::Prim(_) => {},
        }
        i += 1;
        proof {
            let now = all.take(i as int);
            assert(now.drop_last() =~= before);
            assert(now.last() == fields@[i - 1]@);
        }
    }
    assert(all.take(fields.len() as int) =~= all);
    v
}

impl Node {
    pub fn new(sym: Sym, variant: String, fields: Vec<Field>) -> (n: Node)
        ensures
            n@ == (NodeView { sym, variant: variant@, fields: fields_view(fields@) }),
    {
        Node { sym, variant, fields }
    }

    /// The node's current symbol.
    pub fn cur_sym(&self) -> (s: Sym)
        ensures
            s == self@.sym,
    {
        self.sym
    }

    /// The symbols of the node's children, in field order.
    pub fn succs(&self) -> (v: Vec<Sym>)
        ensures
            v@ == self@.succs(),
    {
        field_children(&self.fields)
    }

    /// Gives the node the next symbol of its type and returns it. The
    /// counter must be the one of the node's type.
    pub fn next_sym(&mut self, counter: &mut TyCounter) -> (s: Sym)
        ensures
            s == (Sym { ty: old(self)@.sym.ty, serial: old(counter)@ }),
            final(self)@ == old(self)@.with_sym(s),
            final(counter)@ == (if old(counter)@ == u32::MAX {
                0u32
            } else {
                (old(counter)@ + 1) as u32
            }),
    {
        let s = counter.next_sym(self.sym.ty);
        self.sym = s;
        s
    }

    /// An independent copy with the same symbol and payload.
    pub fn duplicate(&self) -> (n: Node)
        ensures
            n@ == self@,
    {
        let mut fields: Vec<Field> = Vec::new();
        let mut i: usize = 0;
        while i < self.fields.len()
            invariant
                i <= self.fields.len(),
                fields@.len() == i,
                fields_view(fields@) == self@.fields.take(i as int),
            decreases self.fields.len() - i,
        {
            let f = self.fields[i].duplicate();
            let ghost before = fields@;
            fields.push(f);
            i += 1;
            assert(fields_view(fields@) =~= self@.fields.take(i as int)) by {
                assert(forall|j: int| 0 <= j < i - 1 ==> fields@[j] == before[j]);
                assert(forall|j: int|
                    0 <= j < i - 1 ==> fields_view(before)[j] == self@.fields.take(i - 1)[j]);
            }
        }
        assert(self@.fields.take(self.fields.len() as int) =~= self@.fields);
        Node { sym: self.sym, variant: self.variant.clone(), fields }
    }

    /// The same payload with every child reference replaced: the child at
    /// position `i` of `succs()` becomes `to[i]`.
    pub fn set_succs(&mut self, to: &Vec<Sym>)
        requires
            to@.len() == old(self)@.succs().len(),
        ensures
            final(self)@.sym == old(self)@.sym,
            final(self)@.variant == old(self)@.variant,
            final(self)@.fields.len() == old(self)@.fields.len(),
            final(self)@.succs() == to@,
            forall|i: int|
                0 <= i < old(self)@.fields.len() ==> (match (#[trigger] old(self)@.fields[i]) {
                    FieldView::Prim(s) => final(self)@.fields[i] == FieldView::Prim(s),
                    FieldView::Child(_) => final(self)@.fields[i] is Child,
                }),
    {
        let ghost start = self@;
        let n: usize = self.fields.len();
        let mut i: usize = 0;
        let mut k: usize = 0;
        while i < n
            invariant
                n == self.fields.len(),
                i <= n,
                self@.sym == start.sym,
                self@.variant == start.variant,
                self@.fields.len() == start.fields.len(),
                to@.len() == children(start.fields).len(),
                k == children(start.fields.take(i as int)).len(),
                k <= to@.len(),
                k <= i,
                children(self@.fields.take(i as int)) == to@.take(k as int),
                forall|j: int| i <= j < n ==> self@.fields[j] == start.fields[j],
                forall|j: int|
                    0 <= j < i ==> (match (#[trigger] start.fields[j]) {
                        FieldView::Prim(s) => self@.fields[j] == FieldView::Prim(s),
                        FieldView::Child(_) => self@.fields[j] is Child,
                    }),
            decreases n - i,
        {
            let ghost before_start = start.fields.take(i as int);
            let ghost before_self = self@.fields.take(i as int);
            let ghost mid = self@;
            let is_child: bool = match &self.fields[i] {
                Field::Child(_) => true,
                Field::Prim(_) => false,
            };
            proof {
                assert(self@.fields[i as int] == start.fields[i as int]);
                lemma_children_take_le(start.fields, i as int + 1);
                let next = start.fields.take(i as int + 1);
                assert(next.drop_last() =~= before_start);
                assert(next.last() == start.fields[i as int]);
            }
            if is_child {
                let c: Sym = to[k];
                self.fields.set(i, Field::Child(c));
                k += 1;
            }
            i += 1;
            proof {
                let now = self@.fields.take(i as int);
                assert(now.drop_last() =~= before_self) by {
                    assert(forall|j: int| 0 <= j < i - 1 ==> self@.fields[j] == mid.fields[j]);
                }
                if is_child {
                    assert(now.last() == FieldView::Child(to@[k - 1]));
                    assert(to@.take(k as int) =~= to@.take(k - 1).push(to@[k - 1]));
                } else {
                    assert(now.last() == start.fields[i - 1]);
                }
            }
        }
        proof {
            assert(start.fields.take(n as int) =~= start.fields);
            assert(self@.fields.take(n as int) =~= self@.fields);
            assert(to@.take(k as int) =~= to@);
        }
    }

    /// Renders the node as the assertion that binds its symbol.
    pub fn to_egglog(&self, names: &Vec<String>) -> (s: String)
        requires
            typed(self@, names@.len()),
        ensures
            s@ == node_text(names_view(names@), self@),
    {
        let ghost nv = names_view(names@);
        let mut s = String::from_str("(let ");
        proof {
            reveal_strlit("(let ");
            reveal_strlit(" (");
            reveal_strlit(" ");
            reveal_strlit("))");
            assert(s@ =~= seq!['(', 'l', 'e', 't', ' ']);
        }
        let own = sym_string(names[self.sym.ty as usize].as_str(), self.sym.serial);
        s.append(own.as_str());
        s.append(" (");
        s.append(self.variant.as_str());
        s.append(" ");
        let ghost head = s@;
        assert(head =~= seq!['(', 'l', 'e', 't', ' '] + sym_text(
            nv[self.sym.ty as int],
            self.sym.serial,
        ) + seq![' ', '('] + self@.variant + seq![' ']);
        let mut i: usize = 0;
        let mut k: usize = 0;
        while i < self.fields.len()
            invariant
                i <= self.fields.len(),
                nv == names_view(names@),
                typed(self@, names@.len()),
                k == children(self@.fields.take(i as int)).len(),
                k <= i,
                s@ == head + fields_text(nv, self@.fields.take(i as int)),
            decreases self.fields.len() - i,
        {
            let ghost before = self@.fields.take(i as int);
            proof {
                let next = self@.fields.take(i as int + 1);
                assert(next.drop_last() =~= before);
                assert(next.last() == self.fields@[i as int]@);
                lemma_children_take_le(self@.fields, i as int + 1);
                reveal_strlit(" ");
            }
            s.append(" ");
            let ghost spaced = s@;
            match &self.fields[i] {
                Field::Prim(p) => {
                    s.append(p.as_str());
                    assert(s@ == spaced + field_text(nv, self@.fields[i as int]));
                },
                Field::Child(c) => {
                    proof {
                        let next = self@.fields.take(i as int + 1);
                        assert(children(next).last() == *c);
                        assert(self@.succs()[k as int] == *c) by {
                            lemma_children_take_prefix(self@.fields, i as int + 1, k as int);
                        }
                    }
                    let t = sym_string(names[c.ty as usize].as_str(), c.serial);
                    s.append(t.as_str());
                    k += 1;
                    assert(s@ == spaced + field_text(nv, self@.fields[i as int]));
                },
            }
            i += 1;
            proof {
                let now = self@.fields.take(i as int);
                assert(now.drop_last() =~= before);
                assert(now.last() == self@.fields[i - 1]);
                assert(fields_text(nv, now) == fields_text(nv, before) + seq![' '] + field_text(
                    nv,
                    now.last(),
                ));
                assert(spaced =~= head + fields_text(nv, before) + seq![' ']);
                assert(s@ =~= head + fields_text(nv, now));
            }
        }
        assert(self@.fields.take(self.fields.len() as int) =~= self@.fields);
        s.append("))");
        assert(s@ =~= node_text(nv, self@));
        s
    }
}

/// The children of a prefix of the fields are a prefix of the children.
pub proof fn lemma_children_take_le(fields: Seq<FieldView>, n: int)
    requires
        0 <= n <= fields.len(),
    ensures
        children(fields.take(n)).len() <= children(fields).len(),
        children(fields.take(n)) == children(fields).take(children(fields.take(n)).len() as int),
    decreases fields.len() - n,
{
    if n == fields.len() {
        assert(fields.take(n) =~= fields);
        assert(children(fields).take(children(fields).len() as int) =~= children(fields));
    } else {
        lemma_children_take_le(fields, n + 1);
        let next = fields.take(n + 1);
        assert(next.drop_last() =~= fields.take(n));
        let all = children(fields);
        let k = children(fields.take(n)).len() as int;
        assert(children(fields.take(n)) =~= all.take(k));
    }
}

/// The `k`-th child of a prefix of the fields is the `k`-th child.
pub proof fn lemma_children_take_prefix(fields: Seq<FieldView>, n: int, k: int)
    requires
        0 <= n <= fields.len(),
        0 <= k < children(fields.take(n)).len(),
    ensures
        k < children(fields).len(),
        children(fields)[k] == children(fields.take(n))[k],
{
    lemma_children_take_le(fields, n);
}

/// The record the working graph keeps for one version of a node.
#[derive(Debug)]
pub struct WorkAreaNode {
    /// The newer version of the same logical node, once there is one.
    pub next: Option<Sym>,
    /// The version this one replaced.
    pub prev: Option<Sym>,
    /// The nodes that name this one as a child.
    pub preds: Syms,
    /// The node itself.
    pub egglog: Node,
}

/// What a [`WorkAreaNode`] holds.
pub struct WorkAreaNodeView {
    pub next: Option<Sym>,
    pub prev: Option<Sym>,
    pub preds: Seq<Sym>,
    pub node: NodeView,
}

impl WorkAreaNodeView {
    /// Whether no newer version exists.
    pub open spec fn is_latest(self) -> bool {
        self.next is None
    }

    pub open spec fn succs(self) -> Seq<Sym> {
        self.node.succs()
    }
}

impl View for WorkAreaNode {
    type V = WorkAreaNodeView;

    open spec fn view(&self) -> WorkAreaNodeView {
        WorkAreaNodeView {
            next: self.next,
            prev: self.prev,
            preds: self.preds@,
            node: self.egglog@,
        }
    }
}

impl WorkAreaNode {
    /// The record of a node nobody refers to yet.
    pub fn new(node: Node) -> (w: WorkAreaNode)
        ensures
            w@ == (WorkAreaNodeView {
                next: None,
                prev: None,
                preds: Seq::<Sym>::empty(),
                node: node@,
            }),
    {
        WorkAreaNode { next: None, prev: None, preds: Syms::new(), egglog: node }
    }

    /// The nodes that name this one as a child.
    pub fn preds(&self) -> (p: &[Sym])
        ensures
            p@ == self@.preds,
    {
        self.preds.as_slice()
    }

    /// The symbols of the node's children.
    pub fn succs(&self) -> (v: Vec<Sym>)
        ensures
            v@ == self@.succs(),
    {
        self.egglog.succs()
    }

    /// An independent copy.
    pub fn duplicate(&self) -> (w: WorkAreaNode)
        ensures
            w@ == self@,
    {
        WorkAreaNode {
            next: self.next,
            prev: self.prev,
            preds: self.preds.duplicate(),
            egglog: self.egglog.duplicate(),
        }
    }
}

} // verus!
