//! Pending-update reconciliation: deferred edits are recorded as pending
//! `{focus, old_node, new_node}` replacements, merged into chained lines, and
//! replayed upward — one rebuild per ancestor level — until the root is
//! replaced.  Every write path funnels through this engine, reconciling after
//! each edit.
use vstd::prelude::*;

use crate::access_key::{AccessKey, KeyModel};
use crate::domain::{child_of, kind_matches, resolve_rsl_at, Domain, Rsl};
use crate::focus::{Focus, FocusTree};
use crate::log::{NodeEvent, PendingUpdate};
use crate::node::{node_ok, norm_index, NodeModel, NodeValue};

verus! {

broadcast use vstd::std_specs::vec::axiom_spec_len;

/// A run of updates in which each update replaces exactly what the previous
/// one produced, all at one focus.
pub open spec fn chained(updates: Seq<PendingUpdate>) -> bool {
    forall|x: int|
        1 <= x < updates.len() ==> (#[trigger] updates[x]).old_node == updates[x - 1].new_node
            && updates[x].focus == updates[0].focus
}

/// Merging updates into lines: an update extends the last line when it
/// replaces that line's latest node, and opens a new line otherwise.
pub open spec fn merge_lines(updates: Seq<PendingUpdate>) -> Seq<Seq<PendingUpdate>>
    decreases updates.len(),
{
    if updates.len() == 0 {
        Seq::empty()
    } else {
        let rest = merge_lines(updates.drop_last());
        let u = updates.last();
        if rest.len() > 0 && rest.last().len() > 0 && rest.last().last().new_node == u.old_node {
            rest.update(rest.len() - 1, rest.last().push(u))
        } else {
            rest.push(seq![u])
        }
    }
}

/// A fully chained run merges into a single line holding the whole run.
pub proof fn lemma_merge_chained(updates: Seq<PendingUpdate>)
    requires
        updates.len() > 0,
        chained(updates),
    ensures
        merge_lines(updates) == seq![updates],
    decreases updates.len(),
{
    if updates.len() == 1 {
        assert(updates.drop_last() =~= Seq::<PendingUpdate>::empty());
        assert(updates =~= seq![updates.last()]);
        assert(merge_lines(Seq::<PendingUpdate>::empty()) == Seq::<Seq<PendingUpdate>>::empty());
        assert(merge_lines(updates) =~= seq![updates]);
    } else {
        let pre = updates.drop_last();
        assert(chained(pre));
        lemma_merge_chained(pre);
        let u = updates.last();
        assert(pre.last().new_node == u.old_node);
        assert(merge_lines(updates) == seq![pre].update(0, pre.push(u)));
        assert(pre.push(u) =~= updates);
        assert(seq![pre].update(0, updates) =~= seq![updates]);
    }
}

/// Group pending updates into lines, in order.
pub fn build_update_lines(updates: &Vec<PendingUpdate>) -> (r: Vec<Vec<PendingUpdate>>)
    ensures
        r@.map(|i: int, l: Vec<PendingUpdate>| l@) == merge_lines(updates@),
{
    let mut r: Vec<Vec<PendingUpdate>> = Vec::new();
    let mut x: usize = 0;
    let n = updates.len();
    while x < n
        invariant
            n == updates@.len(),
            x <= n,
            r@.map(|i: int, l: Vec<PendingUpdate>| l@) == merge_lines(updates@.take(x as int)),
        decreases n - x,
    {
        let ghost pre = updates@.take(x as int);
        let u = updates[x];
        let rl = r.len();
        let mut extend = false;
        if rl > 0 {
            let ll = r[rl - 1].len();
            if ll > 0 {
                if r[rl - 1][ll - 1].new_node == u.old_node {
                    extend = true;
                }
            }
        }
        if extend {
            let last_idx = rl - 1;
            r[last_idx].push(u);
        } else {
            let mut line: Vec<PendingUpdate> = Vec::new();
            line.push(u);
            r.push(line);
        }
        proof {
            let nxt = updates@.take(x as int + 1);
            assert(nxt.drop_last() =~= pre);
            assert(nxt.last() == u);
            assert(r@.map(|i: int, l: Vec<PendingUpdate>| l@) =~= merge_lines(nxt));
        }
        x = x + 1;
    }
    proof {
        assert(updates@.take(n as int) =~= updates@);
    }
    r
}

/// The container with the child at a key replaced (or, for a map, set).
pub open spec fn set_in(m: NodeModel, k: KeyModel, c: usize) -> NodeModel {
    match (m, k) {
        (NodeModel::Dict(mp), KeyModel::Name(s)) => NodeModel::Dict(mp.insert(s, c)),
        (NodeModel::List(sq), KeyModel::Idx(ix)) => NodeModel::List(
            sq.update(norm_index(sq.len() as int, ix), c),
        ),
        _ => m,
    }
}

/// The store and root that replaying `newv` upward from the focus `fid`
/// produces: at each level the parent is rebuilt (a fresh node holding the
/// replacement at the focus's key), until the root is replaced.
pub open spec fn install(store: Seq<NodeModel>, root: int, t: FocusTree, fid: int, newv: usize) -> (
    Seq<NodeModel>,
    usize,
)
    decreases (if fid > 0 {
        fid
    } else {
        0
    }),
{
    if !(0 < fid < t.n()) || !(0 <= t.parent_of(fid) < fid) {
        (store, newv)
    } else {
        let pf = t.parent_of(fid);
        match resolve_rsl_at(store, root, t.path_of(pf), 0) {
            Rsl::Found(p) => {
                if 0 <= p < store.len() {
                    let pv = set_in(store[p], t.rec(fid).key@, newv);
                    install(store.push(pv), root, t, pf, store.len() as usize)
                } else {
                    (store, newv)
                }
            },
            _ => (store, newv),
        }
    }
}

/// Resolution decomposes at the last key: the full path finds a node exactly
/// when the parent path finds its container and the key steps into it.
pub proof fn lemma_resolve_snoc(store: Seq<NodeModel>, cur: int, keys: Seq<KeyModel>, k: KeyModel, i: int)
    requires
        0 <= i <= keys.len(),
    ensures
        resolve_rsl_at(store, cur, keys.push(k), i) == (match resolve_rsl_at(store, cur, keys, i) {
            Rsl::Found(x) => {
                if !(0 <= x < store.len()) || !kind_matches(store[x], k) {
                    Rsl::Mismatch(keys.len() as int)
                } else {
                    match child_of(store[x], k) {
                        Option::Some(c) => Rsl::Found(c),
                        Option::None => Rsl::Missing(keys.len() as int),
                    }
                }
            },
            e => e,
        }),
    decreases keys.len() - i,
{
    if i == keys.len() {
        assert(keys.push(k)[i] == k);
        if 0 <= cur < store.len() && kind_matches(store[cur], k) {
            match child_of(store[cur], k) {
                Option::Some(c) => {
                    assert(resolve_rsl_at(store, c, keys.push(k), i + 1) == Rsl::Found(c));
                },
                Option::None => {
                },
            }
        }
    } else {
        assert(keys.push(k)[i] == keys[i]);
        if 0 <= cur < store.len() && kind_matches(store[cur], keys[i]) {
            match child_of(store[cur], keys[i]) {
                Option::Some(c) => {
                    lemma_resolve_snoc(store, c, keys, k, i + 1);
                },
                Option::None => {
                },
            }
        }
    }
}

/// Appending nodes to the store never changes what existing nodes resolve to.
pub proof fn lemma_resolve_frame(
    store: Seq<NodeModel>,
    bigger: Seq<NodeModel>,
    cur: int,
    keys: Seq<KeyModel>,
    i: int,
)
    requires
        forall|j: int| 0 <= j < store.len() ==> node_ok(#[trigger] store[j], j),
        store.len() <= bigger.len(),
        forall|j: int| 0 <= j < store.len() ==> bigger[j] == store[j],
        0 <= cur < store.len(),
    ensures
        resolve_rsl_at(bigger, cur, keys, i) == resolve_rsl_at(store, cur, keys, i),
    decreases keys.len() - i,
{
    if 0 <= i < keys.len() {
        assert(bigger[cur] == store[cur]);
        if kind_matches(store[cur], keys[i]) {
            match child_of(store[cur], keys[i]) {
                Option::Some(c) => {
                    crate::domain::lemma_child_of_bound(store[cur], keys[i], cur);
                    lemma_resolve_frame(store, bigger, c, keys, i + 1);
                },
                Option::None => {
                },
            }
        }
    }
}

/// Setting a child keeps the container's kind and key set, places the child
/// under the key, and respects any bound covering the new child.
pub proof fn lemma_set_in_child(m: NodeModel, k: KeyModel, c: usize, bound: int)
    requires
        kind_matches(m, k),
        m is List ==> child_of(m, k) is Some,
        node_ok(m, bound),
        (c as int) < bound,
    ensures
        kind_matches(set_in(m, k, c), k),
        child_of(set_in(m, k, c), k) == Option::Some(c as int),
        node_ok(set_in(m, k, c), bound),
{
    match (m, k) {
        (NodeModel::Dict(mp), KeyModel::Name(s)) => {
            let mp2 = mp.insert(s, c);
            assert(mp2.dom() =~= mp.dom().insert(s));
            assert forall|k2: Seq<char>| mp2.dom().contains(k2) implies #[trigger] mp2[k2]
                < bound by {
                if k2 != s {
                    assert(mp2[k2] == mp[k2]);
                }
            }
        },
        (NodeModel::List(sq), KeyModel::Idx(ix)) => {
            let nx = norm_index(sq.len() as int, ix);
            let sq2 = sq.update(nx, c);
            assert(sq2[nx] == c);
            assert forall|x: int| 0 <= x < sq2.len() implies (#[trigger] sq2[x]) < bound by {
                if x != nx {
                    assert(sq2[x] == sq[x]);
                }
            }
            assert(norm_index(sq2.len() as int, ix) == nx);
        },
        _ => {
        },
    }
}

/// What replaying an update upward achieves: the store only grows (every
/// pre-existing node keeps its id and value), and in the result the focus's
/// key path resolves to the replacement node.
#[verifier::rlimit(100)]
pub proof fn lemma_install_resolves(
    store: Seq<NodeModel>,
    root: int,
    t: FocusTree,
    fid: int,
    newv: usize,
)
    requires
        forall|j: int| 0 <= j < store.len() ==> node_ok(#[trigger] store[j], j),
        0 <= root < store.len(),
        t.wf(),
        0 <= fid < t.n(),
        (newv as int) < store.len(),
        store.len() + t.path_of(fid).len() <= usize::MAX,
        resolve_rsl_at(store, root, t.path_of(fid), 0) is Found,
    ensures
        ({
            let (store2, root2) = install(store, root, t, fid, newv);
            &&& store.len() <= store2.len()
            &&& store2.len() == store.len() + t.path_of(fid).len()
            &&& forall|j: int| 0 <= j < store.len() ==> store2[j] == store[j]
            &&& forall|j: int| 0 <= j < store2.len() ==> node_ok(#[trigger] store2[j], j)
            &&& 0 <= (root2 as int) < store2.len()
            &&& resolve_rsl_at(store2, root2 as int, t.path_of(fid), 0) == Rsl::Found(newv as int)
            &&& (forall|i: int|
                0 <= i < t.path_of(fid).len() ==> (#[trigger] resolve_rsl_at(
                    store2,
                    root2 as int,
                    t.path_of(fid).take(i),
                    0,
                ) matches Rsl::Found(x) && x >= store.len()))
        }),
    decreases (if fid > 0 {
        fid
    } else {
        0
    }),
{
    if fid == 0 {
        assert(t.path_of(0).len() == 0);
        assert(install(store, root, t, 0, newv) == (store, newv));
    } else {
        let pf = t.parent_of(fid);
        let keys = t.path_of(fid);
        let pkeys = t.path_of(pf);
        assert(keys == pkeys.push(t.rec(fid).key@));
        lemma_resolve_snoc(store, root, pkeys, t.rec(fid).key@, 0);
        let pr = resolve_rsl_at(store, root, pkeys, 0);
        let p = pr->Found_0;
        crate::domain::lemma_resolve_bounds(store, root, pkeys, 0);
        assert(0 <= p < store.len());
        assert(kind_matches(store[p], t.rec(fid).key@));
        assert(child_of(store[p], t.rec(fid).key@) is Some);
        let pv = set_in(store[p], t.rec(fid).key@, newv);
        let pid: usize = store.len() as usize;
        let store1 = store.push(pv);
        lemma_set_in_child(store[p], t.rec(fid).key@, newv, store.len() as int);
        crate::domain::lemma_node_ok_weaken(pv, store.len() as int, store1.len() as int);
        assert forall|j: int| 0 <= j < store1.len() implies node_ok(#[trigger] store1[j], j) by {
            if j < store.len() {
                assert(store1[j] == store[j]);
            } else {
                assert(store1[j] == pv);
                crate::domain::lemma_node_ok_weaken(pv, store.len() as int, j);
            }
        }
        lemma_resolve_frame(store, store1, root, pkeys, 0);
        assert(pid as int == store.len());
        assert(resolve_rsl_at(store1, root, pkeys, 0) == Rsl::Found(p));
        lemma_install_resolves(store1, root, t, pf, pid);
        let (store2, root2) = install(store1, root, t, pf, pid);
        assert(install(store, root, t, fid, newv) == (store2, root2));
        // The final store keeps the rebuilt parent, which steps to `newv`.
        assert(store2[pid as int] == pv);
        lemma_resolve_snoc(store2, root2 as int, pkeys, t.rec(fid).key@, 0);
        lemma_set_in_child(store[p], t.rec(fid).key@, newv, store2.len() as int);
        assert(child_of(store2[pid as int], t.rec(fid).key@) == Option::Some(newv as int));
        // every strict ancestor of the installed focus is a fresh identity
        assert forall|i: int| 0 <= i < keys.len() implies #[trigger] resolve_rsl_at(
            store2,
            root2 as int,
            keys.take(i),
            0,
        ) matches Rsl::Found(x) && x >= store.len() by {
            if i < keys.len() - 1 {
                assert(keys.take(i) =~= pkeys.take(i));
            } else {
                assert(keys.take(i) =~= pkeys);
                assert(pkeys.take(pkeys.len() as int) =~= pkeys);
            }
        }
    }
}

impl Domain {
    /// The pending table holds one chained line at one focus, and the line
    /// starts from that focus's current node.  More than one line at a focus
    /// would mean concurrent, non-chained edits: a defect of propagation
    /// bookkeeping, not an input, so it is ruled out rather than handled.
    pub open spec fn pending_ok(self) -> bool {
        let p = self.logger.pending@;
        &&& chained(p)
        &&& forall|x: int|
            0 <= x < p.len() ==> 0 <= ((#[trigger] p[x]).focus as int) < self.tree.n() && (
            p[x].new_node as int) < self.n_nodes() && (p[x].old_node as int) < self.n_nodes()
        &&& (p.len() > 0 ==> self.resolve(self.tree.path_of(p[0].focus as int)) == Rsl::Found(
            p[0].old_node as int,
        ))
    }

    /// Record one internal rebuild: the event, the rebuilt node's parent
    /// link, and what the rebuilt node replaced.
    pub fn log_inode_updated(&mut self, focus: usize, old_value: usize, new_value: usize, new_parent: usize)
        ensures
            final(self).nodes == old(self).nodes,
            final(self).root_id == old(self).root_id,
            final(self).tree == old(self).tree,
            final(self).logger.pending@ == old(self).logger.pending@,
            final(self).logger.log@ == old(self).logger.log@.push(
                NodeEvent::InternalNodeUpdated {
                    txid: crate::log::next_txid(old(self).logger.txid_max),
                    focus,
                    value: new_value,
                },
            ),
            final(self).logger.parents@ == old(self).logger.parents@.insert(new_value, new_parent),
            final(self).logger.changed@ == old(self).logger.changed@.insert(new_value, old_value),
            old(self).logger.log@.is_prefix_of(final(self).logger.log@),
    {
        let txid = self.logger.new_txid();
        self.logger.push(NodeEvent::InternalNodeUpdated { txid, focus, value: new_value });
        self.logger.push_parent_node(new_value, new_parent);
        self.logger.push_change(old_value, new_value);
        proof {
            assert(old(self).logger.log@.is_prefix_of(self.logger.log@));
        }
    }

    /// One level of upward replay: resolve the parent of the focus's node
    /// from the root, rebuild it so that it holds `new_node` at the focus's
    /// key, and hand back the parent's own replacement, pending one level up.
    /// A kind mismatch on this walk can only arise from a bookkeeping defect,
    /// so the starting node must be the focus's current resolution.
    pub fn update_internal_node(&mut self, focus: usize, old_node: usize, new_node: usize) -> (r:
        PendingUpdate)
        requires
            old(self).core_wf(),
            0 < (focus as int) < old(self).tree.n(),
            (new_node as int) < old(self).n_nodes(),
            (old_node as int) < old(self).n_nodes(),
            old(self).resolve(old(self).tree.path_of(focus as int)) == Rsl::Found(old_node as int),
        ensures
            final(self).core_wf(),
            final(self).tree == old(self).tree,
            final(self).root_id == old(self).root_id,
            final(self).logger.pending@ == old(self).logger.pending@,
            final(self).logger.log@ == old(self).logger.log@.push(
                NodeEvent::InternalNodeUpdated {
                    txid: crate::log::next_txid(old(self).logger.txid_max),
                    focus,
                    value: new_node,
                },
            ),
            final(self).logger.parents@ == old(self).logger.parents@.insert(new_node, r.new_node),
            final(self).logger.changed@ == old(self).logger.changed@.insert(new_node, old_node),
            old(self).logger.log@.is_prefix_of(final(self).logger.log@),
            r.focus as int == old(self).tree.parent_of(focus as int),
            final(self).n_nodes() == old(self).n_nodes() + 1,
            (r.old_node as int) < old(self).n_nodes(),
            r.new_node as int == old(self).n_nodes(),
            final(self).resolve(old(self).tree.path_of(r.focus as int)) == Rsl::Found(
                r.old_node as int,
            ),
            final(self).store() == old(self).store().push(
                set_in(
                    old(self).store()[r.old_node as int],
                    old(self).tree.rec(focus as int).key@,
                    new_node,
                ),
            ),
            install(old(self).store(), old(self).root_id as int, old(self).tree, focus as int, new_node)
                == install(
                final(self).store(),
                final(self).root_id as int,
                final(self).tree,
                r.focus as int,
                r.new_node,
            ),
    {
        let ghost t = self.tree;
        let ghost root0 = self.root_id as int;
        let pfid = match self.tree.recs[focus].parent {
            Option::Some(p) => p,
            Option::None => {
                proof {
                    assert(false);
                }
                0
            },
        };
        let pfh = Focus { id: pfid };
        let ghost pkeys = t.path_of(pfid as int);
        let ghost fkey = t.rec(focus as int).key@;
        proof {
            assert(t.path_of(focus as int) == pkeys.push(fkey));
            lemma_resolve_snoc(self.store(), root0, pkeys, fkey, 0);
        }
        let pid = match self.get_focus_node(&pfh) {
            Result::Ok(pr) => pr.1,
            Result::Err(_) => {
                proof {
                    assert(false);
                }
                0
            },
        };
        proof {
            assert(self.resolve(pkeys) == Rsl::Found(pid as int));
            assert(child_of(self.store()[pid as int], fkey) == Option::Some(old_node as int));
            assert(kind_matches(self.store()[pid as int], fkey));
        }
        let key_ref = &self.tree.recs[focus].key;
        let new_val: NodeValue = match (&self.nodes[pid], key_ref) {
            (NodeValue::Dict(mv), AccessKey::Key(name)) => {
                let pr2 = mv.set_item(name.clone(), new_node);
                NodeValue::Dict(pr2.0)
            },
            (NodeValue::List(lv), AccessKey::Index(ix)) => {
                match lv.set_item(*ix, new_node) {
                    Option::Some(pr2) => NodeValue::List(pr2.0),
                    Option::None => {
                        proof {
                            assert(false);
                        }
                        NodeValue::Nil
                    },
                }
            },
            _ => {
                proof {
                    assert(false);
                }
                NodeValue::Nil
            },
        };
        proof {
            assert(new_val@ == set_in(self.store()[pid as int], fkey, new_node));
            crate::domain::lemma_node_ok_weaken(self.store()[pid as int], pid as int, self.n_nodes());
            lemma_set_in_child(self.store()[pid as int], fkey, new_node, self.n_nodes());
        }
        let ghost pre = *self;
        let new_pid = self.alloc_node(new_val);
        self.log_inode_updated(focus, old_node, new_node, new_pid);
        proof {
            lemma_resolve_frame(pre.store(), self.store(), root0, pkeys, 0);
            assert(self.resolve(pkeys) == Rsl::Found(pid as int));
            assert(install(pre.store(), root0, t, focus as int, new_node) == install(
                self.store(),
                root0,
                t,
                pfid as int,
                new_pid,
            ));
        }
        PendingUpdate { focus: pfid, old_node: pid, new_node: new_pid }
    }

    /// Replay the pending line upward: merge it, rebuild one ancestor per
    /// level between the focus and the root, and install the final node as
    /// the new root.  Afterwards no pending entry remains, every node that
    /// existed before keeps its id and value (structural sharing), and the
    /// solved focus's path resolves to the line's final node.
    ///
    /// Reconciliation here is per edit: every write records one pending
    /// update and replays it at once, so between operations the table is
    /// empty and at reconciliation time it holds one chained line at one
    /// focus, which is what the precondition states.  Batches that span
    /// several focuses never arise under this discipline; deepest-first
    /// ordering across focuses therefore reduces to the single upward walk.
    #[verifier::rlimit(100)]
    #[verifier::spinoff_prover]
    pub fn solve_pending_at(&mut self)
        requires
            old(self).core_wf(),
            old(self).pending_ok(),
        ensures
            final(self).wf(),
            final(self).tree == old(self).tree,
            final(self).n_nodes() >= old(self).n_nodes(),
            forall|j: int|
                0 <= j < old(self).n_nodes() ==> final(self).store()[j] == old(self).store()[j],
            old(self).logger.log@.is_prefix_of(final(self).logger.log@),
            old(self).logger.pending@.len() == 0 ==> *final(self) == *old(self),
            old(self).logger.pending@.len() > 0 ==> ({
                let p = old(self).logger.pending@;
                let fid = p[0].focus as int;
                let nv = p.last().new_node;
                &&& final(self).store() == install(
                    old(self).store(),
                    old(self).root_id as int,
                    old(self).tree,
                    fid,
                    nv,
                ).0
                &&& final(self).root_id == install(
                    old(self).store(),
                    old(self).root_id as int,
                    old(self).tree,
                    fid,
                    nv,
                ).1
                &&& final(self).resolve(old(self).tree.path_of(fid)) == Rsl::Found(nv as int)
                &&& (forall|i: int|
                    0 <= i < old(self).tree.path_of(fid).len() ==> (#[trigger] resolve_rsl_at(
                        final(self).store(),
                        final(self).root_id as int,
                        old(self).tree.path_of(fid).take(i),
                        0,
                    ) matches Rsl::Found(x) && x >= old(self).n_nodes()))
                &&& ({
                    // one line event per merged link (for chains of two or
                    // more), then one internal rebuild per ancestor level,
                    // then the root installation
                    let base = old(self).logger.log@.len() + (if p.len() >= 2 {
                        p.len() as int
                    } else {
                        0
                    });
                    let depth = old(self).tree.path_of(fid).len() as int;
                    &&& final(self).logger.log@.len() == base + depth + 1
                    &&& (forall|z: int|
                        old(self).logger.log@.len() <= z < base ==> final(self).logger.log@[z]
                            is InternalLineUpdated)
                    &&& (forall|z: int|
                        base <= z < base + depth ==> final(self).logger.log@[z]
                            is InternalNodeUpdated)
                    &&& (final(self).logger.log@[base + depth]
                        matches NodeEvent::InternalRootUpdated { txid: t3, focus: r3, value: v3 }
                        && r3 == 0 && v3 == final(self).root_id)
                })
            }),
    {
        let pn = self.logger.pending.len();
        if pn == 0 {
            return ;
        }
        let ghost p0 = self.logger.pending@;
        let lines = build_update_lines(&self.logger.pending);
        proof {
            lemma_merge_chained(p0);
            assert(lines@.map(|i: int, l: Vec<PendingUpdate>| l@) =~= seq![p0]);
            assert(lines@.len() == 1);
            assert(lines@.map(|i: int, l: Vec<PendingUpdate>| l@)[0] == lines@[0]@);
        }
        let line = &lines[0];
        let ln = line.len();
        if ln >= 2 {
            // A merged chain is surfaced in the log, one event per link.
            let mut x: usize = 0;
            while x < ln
                invariant
                    ln == line@.len(),
                    x <= ln,
                    self.nodes == old(self).nodes,
                    self.root_id == old(self).root_id,
                    self.tree == old(self).tree,
                    self.logger.pending@ == p0,
                    self.logger.log@.len() == old(self).logger.log@.len() + x,
                    forall|z: int|
                        old(self).logger.log@.len() <= z < self.logger.log@.len()
                            ==> #[trigger] self.logger.log@[z] is InternalLineUpdated,
                    old(self).logger.log@.is_prefix_of(self.logger.log@),
                decreases ln - x,
            {
                let u = line[x];
                let txid = self.logger.new_txid();
                self.logger.push(
                    NodeEvent::InternalLineUpdated {
                        txid,
                        focus: u.focus,
                        old_node: u.old_node,
                        new_node: u.new_node,
                    },
                );
                x = x + 1;
            }
        }
        let first_old = line[0].old_node;
        let f0 = line[0].focus;
        let last_new = line[ln - 1].new_node;
        proof {
            assert(line@ == p0);
            assert(line@[ln - 1] == p0.last());
        }
        self.logger.pending.clear();
        let ghost base_len: int = self.logger.log@.len() as int;
        let ghost base_log = self.logger.log@;
        let ghost store0 = old(self).store();
        let ghost root0 = old(self).root_id as int;
        let ghost t = old(self).tree;
        let ghost target = install(store0, root0, t, f0 as int, last_new);
        let mut f_id = f0;
        let mut cur_new = last_new;
        let mut cur_old = first_old;
        let ghost mut steps: int = 0;
        while f_id != 0
            invariant
                self.core_wf(),
                self.tree == t,
                t.wf(),
                self.logger.pending@.len() == 0,
                0 <= (f_id as int) < t.n(),
                (cur_new as int) < self.n_nodes(),
                (cur_old as int) < self.n_nodes(),
                self.resolve(t.path_of(f_id as int)) == Rsl::Found(cur_old as int),
                install(self.store(), root0, t, f_id as int, cur_new) == target,
                self.root_id as int == root0,
                0 <= steps,
                self.n_nodes() == store0.len() + steps,
                steps + t.path_of(f_id as int).len() == t.path_of(f0 as int).len(),
                forall|j: int| 0 <= j < store0.len() ==> #[trigger] self.store()[j] == store0[j],
                old(self).logger.log@.is_prefix_of(self.logger.log@),
                base_log.is_prefix_of(self.logger.log@),
                base_len == base_log.len(),
                self.logger.log@.len() == base_len + steps,
                forall|z: int|
                    base_len <= z < self.logger.log@.len() ==> #[trigger] self.logger.log@[z]
                        is InternalNodeUpdated,
            decreases f_id,
        {
            let ghost pre = *self;
            let ghost fkey = t.rec(f_id as int).key@;
            let upd = self.update_internal_node(f_id, cur_old, cur_new);
            proof {
                assert(t.path_of(upd.focus as int) =~= t.path_of(f_id as int).drop_last());
                let pv = set_in(pre.store()[upd.old_node as int], fkey, cur_new);
                assert(self.store() == pre.store().push(pv));
                assert forall|j: int| 0 <= j < store0.len() implies #[trigger] self.store()[j]
                    == store0[j] by {
                    assert(j < pre.store().len());
                    assert(self.store()[j] == pre.store().push(pv)[j]);
                    assert(pre.store().push(pv)[j] == pre.store()[j]);
                }
                steps = steps + 1;
            }
            f_id = upd.focus;
            cur_old = upd.old_node;
            cur_new = upd.new_node;
        }
        let ghost pre_root_log = self.logger.log@;
        let txid = self.logger.new_txid();
        self.logger.push(NodeEvent::InternalRootUpdated { txid, focus: f_id, value: cur_new });
        self.logger.push_change(cur_old, cur_new);
        proof {
            assert((cur_new as int) < self.n_nodes());
        }
        self.set_root_id(cur_new);
        proof {
            let fl = self.logger.log@;
            assert(fl.len() == base_len + steps + 1);
            assert(fl[base_len + steps] is InternalRootUpdated);
            assert(fl.subrange(0, base_len) =~= base_log);
            assert forall|z: int|
                old(self).logger.log@.len() <= z < base_len implies #[trigger] fl[z]
                is InternalLineUpdated by {
                assert(fl[z] == pre_root_log[z]);
                assert(pre_root_log[z] == base_log[z]);
            }
            assert forall|z: int|
                base_len <= z < base_len + steps implies #[trigger] fl[z]
                is InternalNodeUpdated by {
                assert(fl[z] == pre_root_log[z]);
            }
            assert(t.path_of(0).len() == 0);
            assert(install(self.store(), root0, t, 0, cur_new) == (self.store(), cur_new));
            assert(vstd::std_specs::vec::spec_vec_len(&self.nodes) == self.nodes@.len());
            assert(self.nodes@.len() <= usize::MAX);
            assert(store0.len() + t.path_of(f0 as int).len() <= usize::MAX);
            lemma_install_resolves(store0, root0, t, f0 as int, last_new);
        }
    }
}

} // verus!
