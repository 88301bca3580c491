//! The map from symbol to record, kept in a `dashmap::DashMap`.
//!
//! Every change goes through an exclusive reference, so the map is used as
//! an ordinary hash map and one call sees what the call before it left.

use crate::node::{WorkAreaNode, WorkAreaNodeView};
use crate::sym::Sym;
use dashmap::DashMap;
use vstd::prelude::*;

verus! {

/// `dashmap::DashMap`, of which the verifier sees nothing but the name.
#[verifier::external_type_specification]
#[verifier::external_body]
#[verifier::reject_recursive_types(K)]
#[verifier::reject_recursive_types(V)]
#[verifier::reject_recursive_types(S)]
pub struct ExDashMap<K, V, S>(DashMap<K, V, S>);

/// The entries a `DashMap` of records holds.
pub uninterp spec fn dash_map_entries(m: DashMap<(u32, u32), WorkAreaNode>) -> Map<(u32, u32), WorkAreaNode>;

/// `DashMap::new`: a map without entries.
#[verifier::external_body]
fn dash_map_new() -> (m: DashMap<(u32, u32), WorkAreaNode>)
    ensures
        forall|k: (u32, u32)| !dash_map_entries(m).contains_key(k),
{
    DashMap::new()
}

/// `DashMap::insert`: the key is bound to the value, whatever it was bound
/// to before; the other entries stay.
#[verifier::external_body]
fn dash_map_insert(m: &mut DashMap<(u32, u32), WorkAreaNode>, k: (u32, u32), v: WorkAreaNode)
    ensures
        dash_map_entries(*final(m)) == dash_map_entries(*old(m)).insert(k, v),
{
    m.insert(k, v);
}

/// `DashMap::get`: the value bound to the key, handed out as a copy that
/// holds the same as the stored one; nothing for a key without entry.
#[verifier::external_body]
fn dash_map_get(m: &DashMap<(u32, u32), WorkAreaNode>, k: (u32, u32)) -> (r: Option<WorkAreaNode>)
    ensures
        match r {
            Some(v) => dash_map_entries(*m).contains_key(k) && v@ == dash_map_entries(*m)[k]@,
            None => !dash_map_entries(*m).contains_key(k),
        },
{
    m.get(&k).map(|e| e.value().duplicate())
}

/// `DashMap::contains_key`: whether the key has an entry.
#[verifier::external_body]
fn dash_map_contains_key(m: &DashMap<(u32, u32), WorkAreaNode>, k: (u32, u32)) -> (found: bool)
    ensures
        found == dash_map_entries(*m).contains_key(k),
{
    m.contains_key(&k)
}

/// The records of the working graph, by symbol.
pub struct NodeStore {
    map: DashMap<(u32, u32), WorkAreaNode>,
}

impl View for NodeStore {
    type V = Map<Sym, WorkAreaNodeView>;

    closed spec fn view(&self) -> Map<Sym, WorkAreaNodeView> {
        Map::new(
            |s: Sym| dash_map_entries(self.map).contains_key(s.key()),
            |s: Sym| dash_map_entries(self.map)[s.key()]@,
        )
    }
}

impl NodeStore {
    pub fn new() -> (s: NodeStore)
        ensures
            s@ == Map::<Sym, WorkAreaNodeView>::empty(),
    {
        let s = NodeStore { map: dash_map_new() };
        assert(s@ =~= Map::<Sym, WorkAreaNodeView>::empty());
        s
    }

    pub fn contains(&self, s: Sym) -> (found: bool)
        ensures
            found == self@.contains_key(s),
    {
        dash_map_contains_key(&self.map, s.as_key())
    }

    /// A copy of the record kept for a symbol.
    pub fn get(&self, s: Sym) -> (r: Option<WorkAreaNode>)
        ensures
            match r {
                Some(w) => self@.contains_key(s) && w@ == self@[s],
                None => !self@.contains_key(s),
            },
    {
        dash_map_get(&self.map, s.as_key())
    }

    /// Binds a symbol to a record, in place of the record it had.
    pub fn insert(&mut self, s: Sym, w: WorkAreaNode)
        ensures
            final(self)@ == old(self)@.insert(s, w@),
    {
        let ghost before = self@;
        let ghost wv = w@;
        dash_map_insert(&mut self.map, s.as_key(), w);
        assert(self@ =~= before.insert(s, wv)) by {
            assert forall|t: Sym| #[trigger] self@.contains_key(t) <==> before.insert(
                s,
                wv,
            ).contains_key(t) by {
                if t.key() == s.key() {
                    assert(t == s);
                }
            }
            assert forall|t: Sym| #[trigger] self@.contains_key(t) implies self@[t] == before.insert(
                s,
                wv,
            )[t] by {
                if t.key() == s.key() {
                    assert(t == s);
                }
            }
        }
    }
}

} // verus!
