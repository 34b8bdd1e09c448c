//! Optimistic version locks of inner nodes.
//!
//! A node's lock word counts writes: its second-lowest bit is set while a
//! writer holds the node, and each acquisition and each release adds two. A
//! reader remembers the word that it saw; a writer gets in only where the word
//! is still the one that the reader saw.
use vstd::prelude::*;

use crate::error::TreeError;
use crate::nodes::inner_node::InnerNode;

verus! {

/// The lock bit of a lock word is set.
pub open spec fn word_locked(version: u64) -> bool {
    (version / 2) % 2 == 1
}

/// The lock word after one step: taking the lock or giving it back.
pub open spec fn word_step(version: u64) -> u64 {
    if version + 2 <= u64::MAX {
        (version + 2) as u64
    } else {
        (version + 2 - 0x1_0000_0000_0000_0000) as u64
    }
}

/// Taking an open lock closes it, and giving back a closed one opens it. Either adds two
/// to the word, so that the mark of an obsolete node in its lowest bit stays; only at the
/// end of its range does the word begin anew.
pub proof fn law_lock_word_alternates(version: u64)
    ensures
        word_locked(word_step(version)) == !word_locked(version),
        word_locked(version) <==> version % 4 >= 2,
        version <= u64::MAX - 2 ==> word_step(version) == version + 2,
        word_step(version) % 2 == version % 2,
{
}

pub fn is_locked(version: u64) -> (r: bool)
    ensures
        r == word_locked(version),
        r <==> version % 4 >= 2,
{
    assert((version & 0b10 == 0b10) == ((version / 2) % 2 == 1)) by (bit_vector);
    (version & 0b10) == 0b10
}

fn step(version: u64) -> (r: u64)
    ensures
        r == word_step(version),
{
    version.wrapping_add(2)
}

/// A reader's memory of a node: the node's number and the lock word it saw.
#[derive(Debug, Clone, Copy)]
pub struct ReadGuard {
    pub version: u64,
    pub node: usize,
}

impl ReadGuard {
    pub fn new(version: u64, node: usize) -> (r: ReadGuard)
        ensures
            r.version == version,
            r.node == node,
    {
        ReadGuard { version, node }
    }

    /// Starts reading node `ptr`; refused while a writer holds the node.
    pub fn try_read(nodes: &Vec<InnerNode>, ptr: usize) -> (r: Result<ReadGuard, TreeError>)
        requires
            ptr < nodes@.len(),
        ensures
            r == (if word_locked(nodes@[ptr as int].version_lock) {
                Err(TreeError::Locked)
            } else {
                Ok::<ReadGuard, TreeError>(
                    ReadGuard { version: nodes@[ptr as int].version_lock, node: ptr },
                )
            }),
    {
        let v = nodes[ptr].version_lock;
        if is_locked(v) {
            Err(TreeError::Locked)
        } else {
            Ok(ReadGuard::new(v, ptr))
        }
    }

    /// Whether the node is unchanged since the reader started.
    pub fn check_version(&self, nodes: &Vec<InnerNode>) -> (r: Result<u64, TreeError>)
        requires
            self.node < nodes@.len(),
        ensures
            r == (if nodes@[self.node as int].version_lock == self.version {
                Ok(self.version)
            } else {
                Err::<u64, TreeError>(TreeError::Locked)
            }),
    {
        let v = nodes[self.node].version_lock;
        if v == self.version {
            Ok(v)
        } else {
            Err(TreeError::Locked)
        }
    }

    pub fn as_ref<'a>(&self, nodes: &'a Vec<InnerNode>) -> (r: &'a InnerNode)
        requires
            self.node < nodes@.len(),
        ensures
            *r == nodes@[self.node as int],
    {
        &nodes[self.node]
    }

    /// Turns the reader into the writer of the node, if the node is unchanged.
    pub fn upgrade<'a>(self, node: &'a mut InnerNode) -> (r: Result<
        WriteGuard<'a>,
        (ReadGuard, TreeError),
    >)
        ensures
            match r {
                Ok(w) => {
                    &&& old(node).version_lock == self.version
                    &&& *w.node == (InnerNode {
                        version_lock: word_step(self.version),
                        ..*old(node)
                    })
                    &&& *final(w.node) == *final(node)
                },
                Err(e) => {
                    &&& old(node).version_lock != self.version
                    &&& *final(node) == *old(node)
                    &&& e == (self, TreeError::Locked)
                },
            },
    {
        if node.version_lock == self.version {
            node.version_lock = step(self.version);
            Ok(WriteGuard { node })
        } else {
            Err((self, TreeError::Locked))
        }
    }
}

/// Exclusive access to a node.
pub struct WriteGuard<'a> {
    pub node: &'a mut InnerNode,
}

impl<'a> WriteGuard<'a> {
    pub fn as_ref(&self) -> (r: &InnerNode)
        ensures
            *r == *old(self.node),
    {
        &*self.node
    }

    /// The node for writing; it cannot be borrowed again meanwhile.
    pub fn as_mut(&mut self) -> (r: &mut InnerNode)
        ensures
            *r == *old(self).node,
            *final(self).node == *final(r),
            *final(final(self).node) == *final(old(self).node),
    {
        &mut *self.node
    }

    /// Marks the node as no longer part of the tree.
    pub fn mark_obsolete(&mut self)
        ensures
            *final(self).node == (InnerNode {
                version_lock: if old(self).node.version_lock < u64::MAX {
                    (old(self).node.version_lock + 1) as u64
                } else {
                    0
                },
                ..*old(self).node
            }),
            *final(final(self).node) == *final(old(self).node),
    {
        self.node.version_lock = self.node.version_lock.wrapping_add(1);
    }

    /// Gives the lock back and goes on as a reader of the node at `ptr`.
    pub fn downgrade(self, ptr: usize) -> (r: ReadGuard)
        ensures
            *final(self.node) == (InnerNode {
                version_lock: word_step(old(self.node).version_lock),
                ..*old(self.node)
            }),
            r.version == word_step(old(self.node).version_lock),
            r.node == ptr,
    {
        let v = step(self.node.version_lock);
        self.node.version_lock = v;
        ReadGuard::new(v, ptr)
    }

    /// Gives the lock back.
    pub fn release(self)
        ensures
            *final(self.node) == (InnerNode {
                version_lock: word_step(old(self.node).version_lock),
                ..*old(self.node)
            }),
    {
        self.node.version_lock = step(self.node.version_lock);
    }
}

/// A write round (upgrade, change, release) leaves the node unlocked, and a
/// reader that started before it no longer sees its version.
pub proof fn law_write_round_invalidates_readers(version: u64)
    requires
        !word_locked(version),
    ensures
        word_locked(word_step(version)),
        !word_locked(word_step(word_step(version))),
        word_step(version) != version,
        word_step(word_step(version)) != version,
{
}

} // verus!
