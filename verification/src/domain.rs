//! The domain: owner of the node store, the single root reference, the focus
//! interning tree and the change logger.  A node's identity is its index in
//! the store; the store only ever grows, so a node, once built, is immutable
//! and keeps its identity across every later edit.
use vstd::prelude::*;

use crate::access_key::{AccessKey, KeyModel};
use crate::error::Error;
use crate::focus::{Focus, FocusTree};
use crate::log::ChangeLogger;
use crate::node::{node_ok, norm_index, NodeModel, NodeValue};

verus! {

pub struct Domain {
    /// The node store; a node's id is its index, children are stored by id.
    pub nodes: Vec<NodeValue>,
    /// The id of the current root node.
    pub root_id: usize,
    /// The focus interning arena; slot 0 is the root focus.
    pub tree: FocusTree,
    pub logger: ChangeLogger,
}

/// Does the access key's kind fit the node variant?
pub open spec fn kind_matches(m: NodeModel, k: KeyModel) -> bool {
    match (m, k) {
        (NodeModel::Dict(_), KeyModel::Name(_)) => true,
        (NodeModel::List(_), KeyModel::Idx(_)) => true,
        _ => false,
    }
}

/// The child id a key denotes in a container node, when present.
pub open spec fn child_of(m: NodeModel, k: KeyModel) -> Option<int> {
    match (m, k) {
        (NodeModel::Dict(mp), KeyModel::Name(s)) => {
            if mp.dom().contains(s) {
                Option::Some(mp[s] as int)
            } else {
                Option::None
            }
        },
        (NodeModel::List(sq), KeyModel::Idx(ix)) => {
            let nx = norm_index(sq.len() as int, ix);
            if 0 <= nx < sq.len() {
                Option::Some(sq[nx] as int)
            } else {
                Option::None
            }
        },
        _ => Option::None,
    }
}

/// The outcome of resolving a key path: the node found, or the depth of the
/// first absent member (`Missing`) or kind mismatch (`Mismatch`).
pub enum Rsl {
    Found(int),
    Missing(int),
    Mismatch(int),
}

pub open spec fn resolve_rsl_at(store: Seq<NodeModel>, cur: int, keys: Seq<KeyModel>, i: int) -> Rsl
    decreases keys.len() - i,
{
    if i < 0 || i >= keys.len() {
        Rsl::Found(cur)
    } else if !(0 <= cur < store.len()) {
        Rsl::Mismatch(i)
    } else if !kind_matches(store[cur], keys[i]) {
        Rsl::Mismatch(i)
    } else {
        match child_of(store[cur], keys[i]) {
            Option::Some(c) => resolve_rsl_at(store, c, keys, i + 1),
            Option::None => Rsl::Missing(i),
        }
    }
}

impl Domain {
    /// The models of all stored nodes, by id.
    pub open spec fn store(self) -> Seq<NodeModel> {
        self.nodes@.map(|i: int, v: NodeValue| v@)
    }

    pub open spec fn n_nodes(self) -> int {
        self.nodes@.len() as int
    }

    /// Every node only points down: its children were stored before it.
    pub open spec fn store_ok(self) -> bool {
        forall|i: int| 0 <= i < self.n_nodes() ==> node_ok(#[trigger] self.store()[i], i)
    }

    /// Well-formedness while reconciliation may be in progress: everything
    /// of `wf` except the absence of pending updates.
    pub open spec fn core_wf(self) -> bool {
        &&& self.store_ok()
        &&& 0 <= (self.root_id as int) < self.n_nodes()
        &&& self.tree.wf()
    }

    pub open spec fn wf(self) -> bool {
        &&& self.core_wf()
        &&& self.logger.pending@.len() == 0
    }

    /// Resolve a key path by descent from the current root.
    pub open spec fn resolve(self, keys: Seq<KeyModel>) -> Rsl {
        resolve_rsl_at(self.store(), self.root_id as int, keys, 0)
    }

    /// A fresh domain: an empty (`Nil`) root and an empty log.
    pub fn new() -> (r: Domain)
        ensures
            r.wf(),
            r.n_nodes() == 1,
            r.store()[0] == NodeModel::Nil,
            r.root_id == 0,
            r.tree.n() == 1,
            r.logger.log@.len() == 0,
            r.logger.txid_max == 0,
            r.logger.changed@ =~= Map::<usize, usize>::empty(),
            r.logger.parents@ =~= Map::<usize, usize>::empty(),
    {
        let (mut tree, h) = FocusTree::new();
        h.release(&mut tree);
        let mut nodes: Vec<NodeValue> = Vec::new();
        nodes.push(NodeValue::Nil);
        let d = Domain { nodes, root_id: 0, tree, logger: ChangeLogger::new() };
        proof {
            assert(d.store() =~= seq![NodeModel::Nil]);
        }
        d
    }

    /// Store a new node and hand back its id (the store's previous length).
    pub(crate) fn alloc_node(&mut self, v: NodeValue) -> (r: usize)
        ensures
            r == old(self).n_nodes(),
            final(self).store() == old(self).store().push(v@),
            final(self).n_nodes() == old(self).n_nodes() + 1,
            final(self).root_id == old(self).root_id,
            final(self).tree == old(self).tree,
            final(self).logger == old(self).logger,
            old(self).store_ok() && node_ok(v@, old(self).n_nodes()) ==> final(self).store_ok(),
    {
        let id = self.nodes.len();
        self.nodes.push(v);
        proof {
            assert(self.store() =~= old(self).store().push(v@));
            if old(self).store_ok() && node_ok(v@, old(self).n_nodes()) {
                assert forall|i: int| 0 <= i < self.n_nodes() implies node_ok(
                    #[trigger] self.store()[i],
                    i,
                ) by {
                    if i < old(self).n_nodes() {
                        assert(self.store()[i] == old(self).store()[i]);
                    } else {
                        assert(self.store()[i] == v@);
                        lemma_node_ok_weaken(v@, old(self).n_nodes(), i);
                    }
                }
            }
        }
        id
    }

    /// Swap the root reference.  This is the single mutation point every
    /// write path funnels through.
    pub(crate) fn set_root_id(&mut self, id: usize)
        requires
            (id as int) < old(self).n_nodes(),
        ensures
            final(self).root_id == id,
            final(self).nodes == old(self).nodes,
            final(self).tree == old(self).tree,
            final(self).logger == old(self).logger,
    {
        self.root_id = id;
    }

    /// The change logger, for inspection of the recorded history.
    pub fn log(&self) -> (r: &ChangeLogger)
        ensures
            r == &self.logger,
    {
        &self.logger
    }

    /// The id of the current root node.
    pub fn get_root_id(&self) -> (r: usize)
        ensures
            r == self.root_id,
    {
        self.root_id
    }

    /// A borrowed view of a stored node.
    pub fn node_value(&self, id: usize) -> (r: Option<&NodeValue>)
        ensures
            match r {
                Option::Some(v) => (id as int) < self.n_nodes() && v@ == self.store()[id as int],
                Option::None => (id as int) >= self.n_nodes(),
            },
    {
        if id < self.nodes.len() {
            Option::Some(&self.nodes[id])
        } else {
            Option::None
        }
    }

    /// Look one access key up in a container node, with the error the
    /// taxonomy prescribes: `NoSuchItem` for an absent member or index,
    /// `WrongItemAccess` when the key's kind does not fit the node.
    pub fn get_item_node(&self, parent_focus: &Focus, parent_node: usize, access_key: &AccessKey)
        -> (r: Result<usize, Error>)
        requires
            (parent_node as int) < self.n_nodes(),
        ensures
            ({
                let m = self.store()[parent_node as int];
                match r {
                    Result::Ok(c) => child_of(m, access_key@) == Option::Some(c as int),
                    Result::Err(e) => match e {
                        Error::NoSuchItem { focus, access_key: k } => kind_matches(m, access_key@)
                            && child_of(m, access_key@) is None && focus == parent_focus.id && k@
                            == access_key@,
                        Error::WrongItemAccess { focus, access_key: k } => !kind_matches(
                            m,
                            access_key@,
                        ) && focus == parent_focus.id && k@ == access_key@,
                        _ => false,
                    },
                }
            }),
    {
        match (&self.nodes[parent_node], access_key) {
            (NodeValue::Dict(mv), AccessKey::Key(name)) => {
                match mv.get_item(name) {
                    Option::Some(c) => Result::Ok(c),
                    Option::None => Error::no_such_item(parent_focus, access_key),
                }
            },
            (NodeValue::List(lv), AccessKey::Index(ix)) => {
                match lv.get_item(*ix) {
                    Option::Some(c) => Result::Ok(c),
                    Option::None => Error::no_such_item(parent_focus, access_key),
                }
            },
            _ => Error::mismatched_access_key(parent_focus, access_key),
        }
    }
}

/// A node whose children lie below one bound also fits any larger bound.
pub proof fn lemma_node_ok_weaken(m: NodeModel, a: int, b: int)
    requires
        node_ok(m, a),
        a <= b,
    ensures
        node_ok(m, b),
{
}

/// Resolution from a node never climbs: what it finds was stored no later
/// than the node it starts from.
pub proof fn lemma_resolve_bounds(store: Seq<NodeModel>, cur: int, keys: Seq<KeyModel>, i: int)
    requires
        forall|j: int| 0 <= j < store.len() ==> node_ok(#[trigger] store[j], j),
        0 <= cur < store.len(),
    ensures
        resolve_rsl_at(store, cur, keys, i) matches Rsl::Found(x) ==> 0 <= x <= cur,
    decreases keys.len() - i,
{
    if 0 <= i < keys.len() && kind_matches(store[cur], keys[i]) {
        match child_of(store[cur], keys[i]) {
            Option::Some(c) => {
                assert(node_ok(store[cur], cur));
                assert(0 <= c < cur);
                lemma_resolve_bounds(store, c, keys, i + 1);
            },
            Option::None => {
            },
        }
    }
}

/// What a container node's bound says of the children a key can reach.
pub proof fn lemma_child_of_bound(m: NodeModel, k: KeyModel, bound: int)
    requires
        node_ok(m, bound),
    ensures
        child_of(m, k) matches Option::Some(c) ==> 0 <= c < bound && kind_matches(m, k),
{
    match (m, k) {
        (NodeModel::Dict(mp), KeyModel::Name(s)) => {
            if mp.dom().contains(s) {
                assert(mp[s] < bound);
            }
        },
        (NodeModel::List(sq), KeyModel::Idx(ix)) => {
            let nx = norm_index(sq.len() as int, ix);
            if 0 <= nx < sq.len() {
                assert(sq[nx] < bound);
            }
        },
        _ => {},
    }
}

impl Domain {
    /// Resolve a focus to its node and that node's immediate parent, by
    /// descent from the root along the focus's key path.  Fails with
    /// `NoSuchItem` or `WrongItemAccess` at the first point of mismatch,
    /// naming the focus whose path reaches that point.
    pub fn get_focus_node(&self, f: &Focus) -> (r: Result<(Option<usize>, usize), Error>)
        requires
            self.core_wf(),
            (f.id as int) < self.tree.n(),
        ensures
            ({
                let keys = self.tree.path_of(f.id as int);
                match self.resolve(keys) {
                    Rsl::Found(x) => r matches Result::Ok(p) && p.1 as int == x && (if keys.len()
                        == 0 {
                        p.0 is None
                    } else {
                        p.0 matches Option::Some(pp) && self.resolve(keys.drop_last())
                            == Rsl::Found(pp as int)
                    }),
                    Rsl::Missing(i) => r matches Result::Err(e) && (
                    e matches Error::NoSuchItem { focus, access_key } && self.tree.path_of(
                        focus as int,
                    ) == keys.take(i) && access_key@ == keys[i]),
                    Rsl::Mismatch(i) => r matches Result::Err(e) && (
                    e matches Error::WrongItemAccess { focus, access_key } && self.tree.path_of(
                        focus as int,
                    ) == keys.take(i) && access_key@ == keys[i]),
                }
            }),
    {
        let ghost keys = self.tree.path_of(f.id as int);
        let mut chain: Vec<usize> = Vec::new();
        let mut cur: usize = f.id;
        while cur != 0
            invariant
                self.core_wf(),
                (cur as int) < self.tree.n(),
                keys == self.tree.path_of(f.id as int),
                self.tree.path_of(cur as int) == keys.take(keys.len() - chain@.len()),
                chain@.len() <= keys.len(),
                forall|x: int|
                    0 <= x < chain@.len() ==> 0 < (#[trigger] chain@[x] as int) < self.tree.n()
                        && self.tree.path_of(chain@[x] as int) == keys.take(keys.len() - x),
            decreases cur,
        {
            let ghost before = self.tree.path_of(cur as int);
            chain.push(cur);
            let prev = cur;
            cur = match self.tree.recs[cur].parent {
                Option::Some(p) => p,
                Option::None => {
                    proof {
                        assert(false);
                    }
                    0
                },
            };
            proof {
                assert(before == self.tree.path_of(cur as int).push(
                    self.tree.rec(prev as int).key@,
                ));
                assert(self.tree.path_of(cur as int) =~= before.drop_last());
                assert(before.drop_last() =~= keys.take(keys.len() - chain@.len()));
            }
        }
        proof {
            assert(self.tree.path_of(0).len() == 0);
            assert(keys.take(keys.len() - chain@.len()).len() == keys.len() - chain@.len());
            assert(chain@.len() == keys.len());
        }
        let m = chain.len();
        let mut cur_node: usize = self.root_id;
        let mut prev_node: usize = self.root_id;
        let mut di: usize = 0;
        let ghost dl = keys.drop_last();
        while di < m
            invariant
                self.core_wf(),
                m == keys.len(),
                m == chain@.len(),
                keys == self.tree.path_of(f.id as int),
                dl == keys.drop_last(),
                di <= m,
                (cur_node as int) < self.n_nodes(),
                resolve_rsl_at(self.store(), cur_node as int, keys, di as int) == self.resolve(
                    keys,
                ),
                di == 0 ==> cur_node == self.root_id,
                di >= 1 ==> (prev_node as int) < self.n_nodes() && child_of(
                    self.store()[prev_node as int],
                    keys[di as int - 1],
                ) == Option::Some(cur_node as int) && resolve_rsl_at(
                    self.store(),
                    prev_node as int,
                    dl,
                    di as int - 1,
                ) == self.resolve(dl),
                forall|x: int|
                    0 <= x < chain@.len() ==> 0 < (#[trigger] chain@[x] as int) < self.tree.n()
                        && self.tree.path_of(chain@[x] as int) == keys.take(keys.len() - x),
            decreases m - di,
        {
            let fid = chain[m - 1 - di];
            proof {
                assert(self.tree.path_of(fid as int) == keys.take(di as int + 1));
                assert(self.tree.path_of(fid as int) == self.tree.path_of(
                    self.tree.parent_of(fid as int),
                ).push(self.tree.rec(fid as int).key@));
                assert(keys.take(di as int + 1).last() == keys[di as int]);
                assert(self.tree.rec(fid as int).key@ == keys[di as int]);
            }
            let pf = Focus { id: if di == 0 { 0 } else { chain[m - di] } };
            proof {
                if di > 0 {
                    assert(self.tree.path_of(pf.id as int) == keys.take(di as int));
                } else {
                    assert(self.tree.path_of(pf.id as int) =~= keys.take(0));
                }
            }
            let key_ref = &self.tree.recs[fid].key;
            match self.get_item_node(&pf, cur_node, key_ref) {
                Result::Ok(c) => {
                    proof {
                        lemma_child_of_bound(
                            self.store()[cur_node as int],
                            keys[di as int],
                            cur_node as int,
                        );
                        if di >= 1 {
                            assert(dl[di as int - 1] == keys[di as int - 1]);
                            if di < m {
                                assert(dl[di as int] == keys[di as int] || di as int == m - 1);
                            }
                        }
                        if (di as int) == m - 1 {
                            assert(resolve_rsl_at(self.store(), cur_node as int, dl, di as int)
                                == Rsl::Found(cur_node as int));
                        } else {
                            assert(dl[di as int] == keys[di as int]);
                        }
                    }
                    prev_node = cur_node;
                    cur_node = c;
                    di = di + 1;
                },
                Result::Err(e) => {
                    proof {
                        assert(resolve_rsl_at(self.store(), cur_node as int, keys, di as int)
                            == self.resolve(keys));
                    }
                    return Result::Err(e);
                },
            }
        }
        if m == 0 {
            Result::Ok((Option::None, cur_node))
        } else {
            Result::Ok((Option::Some(prev_node), cur_node))
        }
    }
}

} // verus!
