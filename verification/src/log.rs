//! The change log: an append-only event list sequenced by a transaction
//! counter, two identity-keyed side tables (`parents`: child node to its most
//! recent known parent; `changed`: new node to the node it replaced), and the
//! table of pending updates awaiting upward reconciliation.  Nodes and
//! focuses are named by their ids.
use vstd::prelude::*;

use std::collections::HashMap;

verus! {

/// One recorded change.  `value` names the node the event is about.
#[derive(Debug, Clone, Copy, PartialEq, Eq, Structural)]
pub enum NodeEvent {
    RootUpdated { txid: u64, focus: usize, value: usize },
    ValueCreated { txid: u64, focus: usize, value: usize },
    ValueUpdated { txid: u64, focus: usize, value: usize },
    ValueDeleted { txid: u64, focus: usize, value: usize },
    ListItemInserted { txid: u64, focus: usize, value: usize },
    ListItemDeleted { txid: u64, focus: usize, value: usize },
    /// An ancestor rebuilt purely to reflect a descendant change.
    InternalNodeUpdated { txid: u64, focus: usize, value: usize },
    /// One link of a merged chain of pending updates at one focus.
    InternalLineUpdated { txid: u64, focus: usize, old_node: usize, new_node: usize },
    InternalRootUpdated { txid: u64, focus: usize, value: usize },
}

/// A deferred node replacement at a focus, awaiting upward replay.
#[derive(Debug, Clone, Copy, PartialEq, Eq, Structural)]
pub struct PendingUpdate {
    pub focus: usize,
    pub old_node: usize,
    pub new_node: usize,
}

/// Saturating increment of the transaction counter.
pub open spec fn next_txid(t: u64) -> u64 {
    if t < u64::MAX {
        (t + 1) as u64
    } else {
        t
    }
}

pub struct ChangeLogger {
    pub txid_max: u64,
    pub log: Vec<NodeEvent>,
    /// New node id to the id of the node it replaced.
    pub changed: HashMap<usize, usize>,
    /// Child node id to its most recent known parent node id.
    pub parents: HashMap<usize, usize>,
    /// Deferred updates, in log order.
    pub pending: Vec<PendingUpdate>,
}

impl ChangeLogger {
    pub fn new() -> (r: ChangeLogger)
        ensures
            r.txid_max == 0,
            r.log@ =~= Seq::<NodeEvent>::empty(),
            r.pending@ =~= Seq::<PendingUpdate>::empty(),
            r.changed@ =~= Map::<usize, usize>::empty(),
            r.parents@ =~= Map::<usize, usize>::empty(),
    {
        ChangeLogger {
            txid_max: 0,
            log: Vec::new(),
            changed: HashMap::new(),
            parents: HashMap::new(),
            pending: Vec::new(),
        }
    }

    /// A fresh transaction id, one past every id handed out before.
    pub fn new_txid(&mut self) -> (r: u64)
        ensures
            r == next_txid(old(self).txid_max),
            *final(self) == (ChangeLogger { txid_max: r, ..*old(self) }),
    {
        if self.txid_max < u64::MAX {
            self.txid_max = self.txid_max + 1;
        }
        self.txid_max
    }

    /// Append one event to the log.
    pub fn push(&mut self, event: NodeEvent)
        ensures
            final(self).log@ == old(self).log@.push(event),
            *final(self) == (ChangeLogger { log: final(self).log, ..*old(self) }),
    {
        self.log.push(event);
    }

    /// The recorded events, oldest first.
    pub fn events(&self) -> (r: &Vec<NodeEvent>)
        ensures
            r@ == self.log@,
    {
        &self.log
    }

    /// Record what a node replaced.
    pub fn push_change(&mut self, old_node: usize, new_node: usize)
        ensures
            final(self).changed@ == old(self).changed@.insert(new_node, old_node),
            *final(self) == (ChangeLogger { changed: final(self).changed, ..*old(self) }),
    {
        self.changed.insert(new_node, old_node);
    }

    /// Record a node's most recent known parent.
    pub fn push_parent_node(&mut self, node: usize, parent: usize)
        ensures
            final(self).parents@ == old(self).parents@.insert(node, parent),
            *final(self) == (ChangeLogger { parents: final(self).parents, ..*old(self) }),
    {
        self.parents.insert(node, parent);
    }

    /// The most recent known parent of a node, if one was recorded.
    pub fn get_parent_node(&self, node: usize) -> (r: Option<usize>)
        ensures
            r == if self.parents@.dom().contains(node) {
                Option::Some(self.parents@[node])
            } else {
                Option::<usize>::None
            },
    {
        match self.parents.get(&node) {
            Option::Some(p) => Option::Some(*p),
            Option::None => Option::None,
        }
    }

    /// Record a deferred update awaiting reconciliation.
    pub fn push_pending(&mut self, upd: PendingUpdate)
        ensures
            final(self).pending@ == old(self).pending@.push(upd),
            *final(self) == (ChangeLogger { pending: final(self).pending, ..*old(self) }),
    {
        self.pending.push(upd);
    }
}

} // verus!
