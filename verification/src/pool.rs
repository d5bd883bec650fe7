use vstd::prelude::*;
use crate::region::Region;
use crate::subs::{RecordField, Variable};
use crate::types::Type2;

verus! {

/// The index of a node in a pool.
#[derive(Clone, Copy, Debug, PartialEq, Eq, Structural)]
pub struct NodeId(pub u32);

/// The id of a node that holds a type.
pub type TypeId = NodeId;

/// A run of `len` consecutive nodes of a pool, starting at `first`.
#[derive(Clone, Copy, Debug, PartialEq, Eq, Structural)]
pub struct PoolVec {
    pub first: NodeId,
    pub len: u32,
}

/// A string stored in a pool node.
#[derive(Clone, Copy, Debug, PartialEq, Eq, Structural)]
pub struct PoolStr {
    pub node: NodeId,
}

/// What a pool node holds.
#[derive(Debug, PartialEq, Eq)]
pub enum PoolNode {
    /// Set aside by `PoolVec::with_capacity`, not written yet.
    Reserved,
    Type(Type2),
    Var(Variable),
    Str(String),
    /// An argument of an alias: its name and its type.
    NamedType(PoolStr, TypeId),
    /// A parameter of an alias: its name and its variable.
    NamedVar(PoolStr, Variable),
    /// A tag of a tag union: its name and its argument types.
    Tag(PoolStr, PoolVec),
    /// A field of a record: its label and its type.
    Field(PoolStr, RecordField<Type2>),
}

/// A pool node together with the source region recorded for it, if any.
#[derive(Debug, PartialEq, Eq)]
pub struct PoolSlot {
    pub node: PoolNode,
    pub region: Option<Region>,
}

/// An arena of nodes addressed by `NodeId`; it holds at most `u32::MAX` nodes.
pub struct Pool {
    slots: Vec<PoolSlot>,
}

impl View for Pool {
    type V = Seq<PoolSlot>;

    closed spec fn view(&self) -> Seq<PoolSlot> {
        self.slots@
    }
}

/// The pool after `node` is added at its end, without a region.
pub open spec fn spec_pool_add(nodes: Seq<PoolSlot>, node: PoolNode) -> Seq<PoolSlot> {
    nodes.push(PoolSlot { node, region: None })
}

/// `n` reserved nodes without regions.
pub open spec fn reserved_slots(n: nat) -> Seq<PoolSlot> {
    Seq::new(n, |i: int| PoolSlot { node: PoolNode::Reserved, region: None })
}

/// The pool after node `id` is overwritten with `node`; its region stays.
pub open spec fn spec_pool_set(nodes: Seq<PoolSlot>, id: NodeId, node: PoolNode) -> Seq<PoolSlot> {
    nodes.update(id.0 as int, PoolSlot { node, region: nodes[id.0 as int].region })
}

/// The pool after `region` is recorded for node `id`.
pub open spec fn spec_pool_set_region(nodes: Seq<PoolSlot>, id: NodeId, region: Region) -> Seq<PoolSlot> {
    nodes.update(id.0 as int, PoolSlot { node: nodes[id.0 as int].node, region: Some(region) })
}

impl Pool {
    pub fn new() -> (p: Pool)
        ensures
            p@ == Seq::<PoolSlot>::empty(),
    {
        Pool { slots: Vec::new() }
    }

    pub fn len(&self) -> (n: usize)
        ensures
            n == self@.len(),
    {
        self.slots.len()
    }

    /// Adds a node at the end of the pool and returns its id.
    pub fn add(&mut self, node: PoolNode) -> (id: NodeId)
        requires
            old(self)@.len() < u32::MAX,
        ensures
            id == NodeId(old(self)@.len() as u32),
            final(self)@ == spec_pool_add(old(self)@, node),
    {
        let id = NodeId(self.slots.len() as u32);
        self.slots.push(PoolSlot { node, region: None });
        id
    }

    /// The node with id `id`.
    pub fn get(&self, id: NodeId) -> (r: &PoolNode)
        requires
            (id.0 as int) < self@.len(),
        ensures
            *r == self@[id.0 as int].node,
    {
        &self.slots[id.0 as usize].node
    }

    /// The region recorded for node `id`, if any.
    pub fn region(&self, id: NodeId) -> (r: Option<Region>)
        requires
            (id.0 as int) < self@.len(),
        ensures
            r == self@[id.0 as int].region,
    {
        self.slots[id.0 as usize].region
    }

    /// Overwrites node `id` with `node`.
    pub fn set(&mut self, id: NodeId, node: PoolNode)
        requires
            (id.0 as int) < old(self)@.len(),
        ensures
            final(self)@ == spec_pool_set(old(self)@, id, node),
    {
        let region = self.slots[id.0 as usize].region;
        self.slots.set(id.0 as usize, PoolSlot { node, region });
    }

    /// Records `region` as the source region of node `id`.
    pub fn set_region(&mut self, id: NodeId, region: Region)
        requires
            (id.0 as int) < old(self)@.len(),
        ensures
            final(self)@ == spec_pool_set_region(old(self)@, id, region),
    {
        self.slots[id.0 as usize].region = Some(region);
        assert(self.slots@ =~= spec_pool_set_region(old(self)@, id, region));
    }
}

impl PoolVec {
    /// Sets aside `len` consecutive nodes at the end of the pool.
    pub fn with_capacity(len: u32, pool: &mut Pool) -> (pv: PoolVec)
        requires
            old(pool)@.len() + len <= u32::MAX,
        ensures
            pv == (PoolVec { first: NodeId(old(pool)@.len() as u32), len }),
            final(pool)@ == old(pool)@ + reserved_slots(len as nat),
    {
        let first = NodeId(pool.slots.len() as u32);
        let mut k: u32 = 0;
        while k < len
            invariant
                k <= len,
                old(pool)@.len() + len <= u32::MAX,
                pool@ == old(pool)@ + reserved_slots(k as nat),
            decreases len - k,
        {
            pool.slots.push(PoolSlot { node: PoolNode::Reserved, region: None });
            k = k + 1;
            assert(pool@ =~= old(pool)@ + reserved_slots(k as nat));
        }
        PoolVec { first, len }
    }

    /// The id of the `i`-th node of the run.
    pub fn node_id(&self, i: u32) -> (id: NodeId)
        requires
            i < self.len,
            self.first.0 + self.len <= u32::MAX,
        ensures
            id == NodeId((self.first.0 + i) as u32),
    {
        NodeId(self.first.0 + i)
    }
}

impl PoolStr {
    /// Stores `s` in a new node of the pool.
    pub fn new(s: &String, pool: &mut Pool) -> (ps: PoolStr)
        requires
            old(pool)@.len() < u32::MAX,
        ensures
            ps == (PoolStr { node: NodeId(old(pool)@.len() as u32) }),
            final(pool)@ == spec_pool_add(old(pool)@, PoolNode::Str(*s)),
    {
        let node = pool.add(PoolNode::Str(s.clone()));
        PoolStr { node }
    }
}

} // verus!
