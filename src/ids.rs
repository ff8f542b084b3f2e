//! Typed identifiers: epochs, shepherds, and graph nodes tagged by kind.

use std::marker::PhantomData;
use vstd::prelude::*;

verus! {

/// An identifier for an epoch within the simulation
#[derive(Copy, Clone, PartialEq, Eq, Hash, Debug, Default, Structural)]
pub struct EpochId(pub usize);

/// An identifier for a shepherd within the simulation
#[derive(Copy, Clone, PartialEq, Eq, Hash, Debug, Default, Structural)]
pub struct ShepherdId(pub usize);

/// An identifier that relates to a node on the simulation graph, typed by
/// the kind of node it names
#[derive(PartialEq, Eq, Hash, Debug)]
pub struct GraphId<K: GraphIdKind>(pub usize, pub PhantomData<K>);

impl<K: GraphIdKind> Clone for GraphId<K> {
    fn clone(&self) -> (r: Self)
        ensures
            r.0 == self.0,
    {
        GraphId(self.0, PhantomData)
    }
}

impl<K: GraphIdKind> Copy for GraphId<K> {
}

impl<K: GraphIdKind> GraphId<K> {
    /// Makes a new [`GraphId`] given the identifier
    pub fn new(id: usize) -> (r: Self)
        ensures
            r.0 == id,
    {
        GraphId(id, PhantomData)
    }
}

/// An identifier that represents a tag within the simulation
pub type TagId = GraphId<Tag>;

/// An identifier that represents a sheep within the simulation
pub type SheepId = GraphId<Sheep>;

/// An identifier that represents an item within the simulation
pub type ItemId = GraphId<Item>;

/// The kinds of identifiers that relate to the simulation graph
pub trait GraphIdKind: Sized {
    /// The kind of node that an identifier of this kind names
    spec fn spec_node_type() -> NodeType;

    fn node_type() -> (r: NodeType)
        ensures
            r == Self::spec_node_type(),
    ;
}

/// The identifier represents a tag within the simulation
#[derive(Copy, Clone, PartialEq, Eq, Hash, Debug)]
pub struct Tag;

impl GraphIdKind for Tag {
    open spec fn spec_node_type() -> NodeType {
        NodeType::Tag
    }

    fn node_type() -> (r: NodeType) {
        NodeType::Tag
    }
}

/// The identifier represents a sheep within the simulation
#[derive(Copy, Clone, PartialEq, Eq, Hash, Debug)]
pub struct Sheep;

impl GraphIdKind for Sheep {
    open spec fn spec_node_type() -> NodeType {
        NodeType::Sheep
    }

    fn node_type() -> (r: NodeType) {
        NodeType::Sheep
    }
}

/// The identifier represents an item within the simulation
#[derive(Copy, Clone, PartialEq, Eq, Hash, Debug)]
pub struct Item;

impl GraphIdKind for Item {
    open spec fn spec_node_type() -> NodeType {
        NodeType::Item
    }

    fn node_type() -> (r: NodeType) {
        NodeType::Item
    }
}

/// Marks the identifier kinds that are either an [`Item`] or a [`Sheep`]
pub trait IsItemOrSheep: GraphIdKind {
}

impl IsItemOrSheep for Item {
}

impl IsItemOrSheep for Sheep {
}

/// An enumeration over the kinds of nodes in the tag graph
#[derive(Copy, Clone, PartialEq, Eq, Hash, Debug, Structural)]
pub enum NodeType {
    /// A sheep (user) in the simulation
    Sheep,
    /// A tag in the simulation
    Tag,
    /// An item (content) in the simulation
    Item,
}

} // verus!

verus! {

/// The indices behind a sequence of identifiers
pub open spec fn ids<K: GraphIdKind>(s: Seq<GraphId<K>>) -> Seq<usize> {
    s.map_values(|x: GraphId<K>| x.0)
}

/// The indices behind a vector of identifiers
pub fn to_ids<K: GraphIdKind>(v: &Vec<GraphId<K>>) -> (r: Vec<usize>)
    ensures
        r@ == ids(v@),
{
    let mut r: Vec<usize> = Vec::new();
    for i in 0..v.len()
        invariant
            r@ == ids(v@.take(i as int)),
    {
        r.push(v[i].0);
        assert(ids(v@.take(i + 1)) =~= ids(v@.take(i as int)).push(v@[i as int].0));
    }
    assert(v@.take(v@.len() as int) =~= v@);
    r
}

/// Identifiers of kind `K` for a vector of indices
pub fn from_ids<K: GraphIdKind>(v: &Vec<usize>) -> (r: Vec<GraphId<K>>)
    ensures
        ids(r@) == v@,
{
    let mut r: Vec<GraphId<K>> = Vec::new();
    for i in 0..v.len()
        invariant
            ids(r@) == v@.take(i as int),
    {
        let id = GraphId::new(v[i]);
        let ghost prev = r@;
        r.push(id);
        assert(ids(r@) =~= ids(prev).push(id.0));
        assert(v@.take(i + 1) =~= v@.take(i as int).push(v@[i as int]));
    }
    assert(v@.take(v@.len() as int) =~= v@);
    r
}

} // verus!
