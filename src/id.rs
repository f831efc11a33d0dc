//! Identities of retained nodes and the context that allocates them.
use vstd::prelude::*;

verus! {

/// The identity of one node of the retained tree, stable across rebuilds of
/// the same logical node and never handed out twice by one `Cx`.
#[derive(Clone, Copy, Debug, PartialEq, Eq, Hash, PartialOrd, Ord, Structural)]
pub struct Id {
    pub raw: u64,
}

impl Id {
    /// The number behind this identity.
    pub fn to_raw(self) -> (r: u64)
        ensures
            r == self.raw,
    {
        self.raw
    }
}

/// The context of one build or rebuild pass: the identity allocator and the
/// path of identities from the root down to the node being visited.
pub struct Cx {
    next: u64,
    id_path: Vec<Id>,
}

impl Cx {
    /// The raw value the next allocated identity will carry.
    pub closed spec fn next_raw(&self) -> nat {
        self.next as nat
    }

    /// The identities from the root to the node being visited.
    pub closed spec fn path(&self) -> Seq<Id> {
        self.id_path@
    }

    /// How many more identities this context can hand out.
    pub open spec fn capacity(&self) -> nat {
        if self.next_raw() <= u64::MAX {
            (u64::MAX - self.next_raw()) as nat
        } else {
            0
        }
    }

    pub fn new() -> (cx: Cx)
        ensures
            cx.next_raw() == 1,
            cx.path() == Seq::<Id>::empty(),
    {
        Cx { next: 1, id_path: Vec::new() }
    }

    /// Hands out a fresh identity, larger than every one handed out before.
    pub fn new_id(&mut self) -> (id: Id)
        requires
            old(self).capacity() >= 1,
        ensures
            id.raw == old(self).next_raw(),
            final(self).next_raw() == old(self).next_raw() + 1,
            final(self).path() == old(self).path(),
    {
        let id = Id { raw: self.next };
        self.next = self.next + 1;
        id
    }

    /// How many more identities this context can hand out.
    pub fn remaining(&self) -> (r: u64)
        ensures
            r == self.capacity(),
    {
        u64::MAX - self.next
    }

    /// Enters the scope of the node `id`.
    pub fn push_id(&mut self, id: Id)
        ensures
            final(self).next_raw() == old(self).next_raw(),
            final(self).path() == old(self).path().push(id),
    {
        self.id_path.push(id);
    }

    /// Leaves the scope of the innermost node.
    pub fn pop_id(&mut self)
        requires
            old(self).path().len() > 0,
        ensures
            final(self).next_raw() == old(self).next_raw(),
            final(self).path() == old(self).path().drop_last(),
    {
        self.id_path.pop();
    }

    /// A copy of the path from the root to the node being visited.
    pub fn id_path(&self) -> (r: Vec<Id>)
        ensures
            r@ == self.path(),
    {
        self.id_path.clone()
    }
}

} // verus!
