//! The cursor: a transient, cheaply movable view {focus, current node,
//! optional parent node} into a domain's tree.  It does not own the tree; it
//! is a coordinate into it, valid for the domain state it was read from.
//! Navigation re-reads from the current node; mutations build fresh nodes,
//! record the change as a pending update and reconcile it up to the root,
//! returning a new cursor at the same focus over the new version.
use vstd::prelude::*;

use crate::access_key::{AccessKey, KeyModel};
use crate::domain::{child_of, kind_matches, Domain, Rsl};
use crate::error::Error;
use crate::focus::{Focus, FocusRec, FocusTree};
use crate::log::{NodeEvent, PendingUpdate};
use crate::node::{node_ok, norm_index, ListValue, MapValue, NodeModel, NodeValue};
use crate::path::{extends, resolve_path_chars, AccessPathError, PathErr};

verus! {

pub struct Spot {
    /// The interned path this cursor stands at (a counted handle).
    pub focus: Focus,
    /// The node currently at that path.
    pub node: usize,
    /// The node's immediate parent, when one was resolved.
    pub parent: Option<usize>,
}

impl Spot {
    /// The key path this cursor stands at.
    pub open spec fn path(self, d: Domain) -> Seq<KeyModel> {
        d.tree.path_of(self.focus.id as int)
    }

    /// The cursor agrees with the domain: its focus is live, its node is what
    /// the focus currently resolves to, and its parent (when present) is the
    /// resolution of the parent path.
    pub open spec fn inv(self, d: Domain) -> bool {
        &&& d.tree.is_live(self.focus.id as int)
        &&& (self.node as int) < d.n_nodes()
        &&& d.resolve(self.path(d)) == Rsl::Found(self.node as int)
        &&& match self.parent {
            Option::Some(p) => self.focus.id != 0 && (p as int) < d.n_nodes() && d.resolve(
                self.path(d).drop_last(),
            ) == Rsl::Found(p as int),
            Option::None => true,
        }
    }

    /// The node value this cursor currently denotes.
    pub open spec fn value(self, d: Domain) -> NodeModel {
        d.store()[self.node as int]
    }

    pub fn is_none(&self, d: &Domain) -> (r: bool)
        requires
            (self.node as int) < d.n_nodes(),
        ensures
            r == (self.value(*d) is Nil),
    {
        self.node_ref(d).is_none()
    }

    pub fn is_integer(&self, d: &Domain) -> (r: bool)
        requires
            (self.node as int) < d.n_nodes(),
        ensures
            r == (self.value(*d) is Integer),
    {
        self.node_ref(d).is_integer()
    }

    fn node_ref<'a>(&self, d: &'a Domain) -> (r: &'a NodeValue)
        requires
            (self.node as int) < d.n_nodes(),
        ensures
            r@ == self.value(*d),
    {
        &d.nodes[self.node]
    }

    /// The boolean this cursor denotes; only for `Bool` nodes.
    pub fn to_bool(&self, d: &Domain) -> (r: bool)
        requires
            (self.node as int) < d.n_nodes(),
            self.value(*d) is Bool,
        ensures
            self.value(*d) == NodeModel::Bool(r),
    {
        match self.node_ref(d) {
            NodeValue::Bool(b) => *b,
            _ => false,
        }
    }

    /// The integer this cursor denotes; only for `Integer` nodes.
    pub fn to_i64(&self, d: &Domain) -> (r: i64)
        requires
            (self.node as int) < d.n_nodes(),
            self.value(*d) is Integer,
        ensures
            self.value(*d) == NodeModel::Integer(r),
    {
        match self.node_ref(d) {
            NodeValue::Integer(i) => *i,
            _ => 0,
        }
    }

    /// The float bit pattern this cursor denotes; only for `Float` nodes.
    pub fn to_f64_bits(&self, d: &Domain) -> (r: u64)
        requires
            (self.node as int) < d.n_nodes(),
            self.value(*d) is Float,
        ensures
            self.value(*d) == NodeModel::Float(r),
    {
        match self.node_ref(d) {
            NodeValue::Float(bits) => *bits,
            _ => 0,
        }
    }

    /// The text this cursor denotes; only for `Text` nodes.
    pub fn to_string(&self, d: &Domain) -> (r: String)
        requires
            (self.node as int) < d.n_nodes(),
            self.value(*d) is Text,
        ensures
            self.value(*d) == NodeModel::Text(r@),
    {
        match self.node_ref(d) {
            NodeValue::Text(s) => s.clone(),
            _ => String::new(),
        }
    }

    /// Element or member count of a collection node; `CollectionRequired`
    /// exactly on scalars.
    pub fn len(&self, d: &Domain) -> (r: Result<usize, Error>)
        requires
            (self.node as int) < d.n_nodes(),
        ensures
            match r {
                Result::Ok(n) => match self.value(*d) {
                    NodeModel::Dict(mp) => n == mp.len(),
                    NodeModel::List(s) => n == s.len(),
                    _ => false,
                },
                Result::Err(e) => !(self.value(*d) is Dict) && !(self.value(*d) is List) && (
                e matches Error::CollectionRequired { focus } && focus == self.focus.id),
            },
    {
        match &d.nodes[self.node] {
            NodeValue::Dict(mv) => Result::Ok(mv.len()),
            NodeValue::List(lv) => Result::Ok(lv.len()),
            _ => Error::should_be_collection(&self.focus),
        }
    }

    /// Drop this cursor's hold on its focus.
    pub fn release(self, d: &mut Domain)
        requires
            old(d).wf(),
            (self.focus.id as int) < old(d).tree.n(),
        ensures
            final(d).wf(),
            final(d).nodes == old(d).nodes,
            final(d).root_id == old(d).root_id,
            final(d).logger == old(d).logger,
    {
        self.focus.release(&mut d.tree);
        proof {
            assert(d.store() =~= old(d).store());
        }
    }

    /// Step to a child of the current node, looked up in the current node
    /// (not re-walked from the root).  The child's focus is interned either
    /// way; the errors are those of the single-step lookup.
    pub fn focus(self, d: &mut Domain, access_key: AccessKey) -> (r: Result<Spot, Error>)
        requires
            old(d).wf(),
            self.inv(*old(d)),
            !(access_key@ is AtRoot),
        ensures
            final(d).wf(),
            final(d).nodes == old(d).nodes,
            final(d).root_id == old(d).root_id,
            final(d).logger == old(d).logger,
            extends(old(d).tree, final(d).tree),
            match r {
                Result::Ok(s2) => {
                    &&& child_of(old(d).store()[self.node as int], access_key@) == Option::Some(
                        s2.node as int,
                    )
                    &&& s2.path(*final(d)) == self.path(*old(d)).push(access_key@)
                    &&& s2.parent == Option::Some(self.node)
                    &&& s2.inv(*final(d))
                },
                Result::Err(e) => match e {
                    Error::NoSuchItem { focus, access_key: k } => kind_matches(
                        old(d).store()[self.node as int],
                        access_key@,
                    ) && child_of(old(d).store()[self.node as int], access_key@) is None && focus
                        == self.focus.id && k@ == access_key@,
                    Error::WrongItemAccess { focus, access_key: k } => !kind_matches(
                        old(d).store()[self.node as int],
                        access_key@,
                    ) && focus == self.focus.id && k@ == access_key@,
                    _ => false,
                },
            },
    {
        let ghost d0 = *old(d);
        let item_focus = self.focus.focus(&mut d.tree, access_key.duplicate());
        let ghost t1 = d.tree;
        let step = d.get_item_node(&self.focus, self.node, &access_key);
        match step {
            Result::Ok(c) => {
                proof {
                    crate::focus::lemma_path_agree(d0.tree, t1, self.focus.id as int);
                    crate::reconcile::lemma_resolve_snoc(
                        d0.store(),
                        d0.root_id as int,
                        d0.tree.path_of(self.focus.id as int),
                        access_key@,
                        0,
                    );
                    // the interned child keeps the cursor's slot occupied, so
                    // dropping the old handle only adjusts that slot's count
                    assert(t1.rec(self.focus.id as int).kids@.len() > 0) by {
                        if t1.rec(self.focus.id as int).kids@.len() == 0 {
                            assert(crate::focus::kids_lookup(
                                t1.rec(self.focus.id as int).kids@,
                                access_key@,
                            ) is None);
                        }
                    }
                }
                self.focus.release(&mut d.tree);
                proof {
                    assert(item_focus.id != self.focus.id);
                    assert(d.tree.rec(item_focus.id as int) == t1.rec(item_focus.id as int));
                    crate::focus::lemma_path_agree(t1, d.tree, item_focus.id as int);
                    lemma_extends_release(d0.tree, t1, d.tree);
                    assert(d.store() =~= d0.store());
                    assert(d.tree.path_of(item_focus.id as int).drop_last() =~= d0.tree.path_of(
                        self.focus.id as int,
                    ));
                }
                Result::Ok(Spot { focus: item_focus, node: c, parent: Option::Some(self.node) })
            },
            Result::Err(e) => {
                item_focus.release(&mut d.tree);
                self.focus.release(&mut d.tree);
                proof {
                    lemma_extends_release(d0.tree, t1, d.tree);
                    assert(d.store() =~= d0.store());
                }
                Result::Err(e)
            },
        }
    }

    /// Resolve a path string from this cursor's focus (or the root, for an
    /// absolute path), then read the node it denotes from the domain root.
    pub fn navigate(&self, d: &mut Domain, path: &str) -> (r: Result<Spot, Error>)
        requires
            old(d).wf(),
            self.inv(*old(d)),
        ensures
            final(d).wf(),
            final(d).nodes == old(d).nodes,
            final(d).root_id == old(d).root_id,
            final(d).logger == old(d).logger,
            extends(old(d).tree, final(d).tree),
            r is Ok ==> forall|i: int|
                old(d).tree.is_live(i) ==> final(d).tree.is_live(i),
            ({
                let base = if path@.len() > 0 && path@[0] == '/' {
                    Seq::<KeyModel>::empty()
                } else {
                    self.path(*old(d))
                };
                match r {
                    Result::Ok(s2) => {
                        &&& resolve_path_chars(base, path@) == Result::<
                            Seq<KeyModel>,
                            PathErr,
                        >::Ok(s2.path(*final(d)))
                        &&& final(d).resolve(s2.path(*final(d))) == Rsl::Found(s2.node as int)
                        &&& s2.inv(*final(d))
                    },
                    Result::Err(e) => match e {
                        Error::AccessPathError(pe) => match pe {
                            AccessPathError::OverFocus(o) => resolve_path_chars(base, path@)
                                == Result::<Seq<KeyModel>, PathErr>::Err(PathErr::OverRoot)
                                && o.path@ == path@,
                            AccessPathError::Parsing(p2) => resolve_path_chars(base, path@)
                                == Result::<Seq<KeyModel>, PathErr>::Err(PathErr::BadIndex)
                                && p2.path@ == path@,
                        },
                        Error::NoSuchItem { focus, access_key } => resolve_path_chars(
                            base,
                            path@,
                        ) is Ok && ({
                            let keys = resolve_path_chars(base, path@)->Ok_0;
                            final(d).resolve(keys) matches Rsl::Missing(i) && final(d).tree.path_of(focus as int) == keys.take(i) && access_key@ == keys[i]
                        }),
                        Error::WrongItemAccess { focus, access_key } => resolve_path_chars(
                            base,
                            path@,
                        ) is Ok && ({
                            let keys = resolve_path_chars(base, path@)->Ok_0;
                            final(d).resolve(keys) matches Rsl::Mismatch(i) && final(d).tree.path_of(focus as int) == keys.take(i) && access_key@ == keys[i]
                        }),
                        _ => false,
                    },
                }
            }),
    {
        let ghost d0 = *old(d);
        match self.focus.turn_to(&mut d.tree, path) {
            Result::Ok(to_focus) => {
                let step = d.get_focus_node(&to_focus);
                match step {
                    Result::Ok(pr) => {
                        proof {
                            crate::domain::lemma_resolve_bounds(
                                d.store(),
                                d.root_id as int,
                                d.tree.path_of(to_focus.id as int),
                                0,
                            );
                            assert(d.store() =~= d0.store());
                            if pr.0 is Some {
                                assert(d.tree.path_of(to_focus.id as int).len() > 0);
                                assert(to_focus.id != 0) by {
                                    assert(d.tree.path_of(0).len() == 0);
                                }
                                crate::domain::lemma_resolve_bounds(
                                    d.store(),
                                    d.root_id as int,
                                    d.tree.path_of(to_focus.id as int).drop_last(),
                                    0,
                                );
                            }
                        }
                        Result::Ok(Spot { focus: to_focus, node: pr.1, parent: pr.0 })
                    },
                    Result::Err(e) => {
                        let ghost t1 = d.tree;
                        to_focus.release(&mut d.tree);
                        proof {
                            lemma_extends_release(d0.tree, t1, d.tree);
                            lemma_paths_preserved(t1, d.tree);
                            assert(d.store() =~= d0.store());
                        }
                        Result::Err(e)
                    },
                }
            },
            Result::Err(err) => Result::Err(Error::AccessPathError(err)),
        }
    }
}

/// Releasing handles keeps slot count, parents and keys, so an extension
/// followed by releases is still an extension.
proof fn lemma_extends_release(a: FocusTree, m: FocusTree, b: FocusTree)
    requires
        extends(a, m),
        b.n() == m.n(),
        forall|i: int|
            0 <= i < m.n() ==> (#[trigger] b.rec(i)).parent == m.rec(i).parent && b.rec(i).key
                == m.rec(i).key,
    ensures
        extends(a, b),
{
}

/// Trees agreeing on parents and keys give every slot the same path.
proof fn lemma_paths_preserved(a: FocusTree, b: FocusTree)
    requires
        b.n() == a.n(),
        forall|i: int|
            0 <= i < a.n() ==> (#[trigger] b.rec(i)).parent == a.rec(i).parent && b.rec(i).key
                == a.rec(i).key,
    ensures
        forall|i: int| 0 <= i < a.n() ==> #[trigger] b.path_of(i) == a.path_of(i),
{
    assert forall|i: int| 0 <= i < a.n() implies #[trigger] b.path_of(i) == a.path_of(i) by {
        crate::focus::lemma_path_agree(a, b, i);
    }
}

impl Domain {
    /// The cursor at the root focus over the current root node.
    pub fn root(&mut self) -> (r: Spot)
        requires
            old(self).wf(),
        ensures
            final(self).wf(),
            final(self).nodes == old(self).nodes,
            final(self).root_id == old(self).root_id,
            final(self).logger == old(self).logger,
            extends(old(self).tree, final(self).tree),
            forall|i: int| old(self).tree.is_live(i) ==> final(self).tree.is_live(i),
            r.focus.id == 0,
            r.node == final(self).root_id,
            r.parent is None,
            r.inv(*final(self)),
    {
        let h = self.tree.root();
        let n = self.root_id;
        proof {
            assert(self.tree.path_of(0).len() == 0);
            assert(self.store() =~= old(self).store());
            assert forall|i: int| old(self).tree.is_live(i) implies self.tree.is_live(i) by {
                if i != 0 {
                    assert(self.tree.rec(i) == old(self).tree.rec(i));
                }
            }
        }
        Spot { focus: h, node: n, parent: Option::None }
    }

    /// Resolve a path string from the root.
    pub fn navigate(&mut self, path: &str) -> (r: Result<Spot, Error>)
        requires
            old(self).wf(),
        ensures
            final(self).wf(),
            final(self).nodes == old(self).nodes,
            final(self).root_id == old(self).root_id,
            final(self).logger == old(self).logger,
            r is Ok ==> forall|i: int|
                old(self).tree.is_live(i) ==> final(self).tree.is_live(i),
            match r {
                Result::Ok(s2) => {
                    &&& s2.inv(*final(self))
                    &&& resolve_path_chars(Seq::empty(), path@) == Result::<
                        Seq<KeyModel>,
                        PathErr,
                    >::Ok(s2.path(*final(self)))
                    &&& final(self).resolve(s2.path(*final(self))) == Rsl::Found(s2.node as int)
                },
                Result::Err(e) => match e {
                    Error::AccessPathError(pe) => match pe {
                        AccessPathError::OverFocus(o) => resolve_path_chars(Seq::empty(), path@)
                            == Result::<Seq<KeyModel>, PathErr>::Err(PathErr::OverRoot) && o.path@
                            == path@,
                        AccessPathError::Parsing(p2) => resolve_path_chars(Seq::empty(), path@)
                            == Result::<Seq<KeyModel>, PathErr>::Err(PathErr::BadIndex) && p2.path@
                            == path@,
                    },
                    Error::NoSuchItem { focus, access_key } => resolve_path_chars(
                        Seq::empty(),
                        path@,
                    ) is Ok && ({
                        let keys = resolve_path_chars(Seq::<KeyModel>::empty(), path@)->Ok_0;
                        final(self).resolve(keys) matches Rsl::Missing(i) && final(self).tree.path_of(focus as int) == keys.take(i) && access_key@ == keys[i]
                    }),
                    Error::WrongItemAccess { focus, access_key } => resolve_path_chars(
                        Seq::empty(),
                        path@,
                    ) is Ok && ({
                        let keys = resolve_path_chars(Seq::<KeyModel>::empty(), path@)->Ok_0;
                        final(self).resolve(keys) matches Rsl::Mismatch(i) && final(self).tree.path_of(focus as int) == keys.take(i) && access_key@ == keys[i]
                    }),
                    _ => false,
                },
            },
    {
        let root_spot = self.root();
        let ghost t_a = self.tree;
        proof {
            assert(root_spot.path(*self) =~= Seq::<KeyModel>::empty());
        }
        let r = root_spot.navigate(self, path);
        let Spot { focus: rf, node: _, parent: _ } = root_spot;
        let ghost t_before = self.tree;
        rf.release(&mut self.tree);
        proof {
            let rb = t_before;
            let ra = self.tree;
            if rb.rec(0).refs >= 1 {
                assert(ra.recs@ == rb.recs@.update(
                    0,
                    FocusRec { refs: (rb.rec(0).refs - 1) as usize, ..rb.rec(0) },
                ));
            } else {
                assert(ra == rb);
            }
            assert forall|i: int| 0 <= i < rb.n() implies (#[trigger] ra.rec(i)).parent == rb.rec(
                i,
            ).parent && ra.rec(i).key == rb.rec(i).key && ra.rec(i).live == rb.rec(i).live by {
                if i != 0 {
                    assert(ra.rec(i) == rb.rec(i));
                }
            }
            lemma_paths_preserved(rb, ra);
            if r is Ok {
                assert forall|i: int| old(self).tree.is_live(i) implies self.tree.is_live(i) by {
                    assert(t_a.is_live(i));
                    assert(rb.is_live(i));
                    assert(ra.rec(i).live == rb.rec(i).live);
                }
            }
        }
        r
    }
}


/// What replacing the node at a focus guarantees beyond the fresh value: a
/// root cursor swaps and logs the root directly, recording what it replaced;
/// any other cursor has the staged store installed upward — every ancestor
/// on the path rebuilt as a fresh identity, one internal event logged per
/// rebuilt level, and the root installation logged last.
pub open spec fn replaced_at(
    d0: Domain,
    d1: Domain,
    fid: int,
    node0: usize,
    nv: usize,
    value: NodeModel,
) -> bool {
    let keys = d0.tree.path_of(fid);
    let staged = d0.store().push(value);
    &&& d1.store()[nv as int] == value
    &&& nv as int == d0.n_nodes()
    &&& crate::domain::resolve_rsl_at(d1.store(), d1.root_id as int, keys, 0) == Rsl::Found(
        nv as int,
    )
    &&& (fid == 0 ==> d1.root_id == nv && d1.n_nodes() == d0.n_nodes() + 1 && d1.logger.log@
        == d0.logger.log@.push(
        NodeEvent::RootUpdated {
            txid: crate::log::next_txid(d0.logger.txid_max),
            focus: 0,
            value: nv,
        },
    ) && d1.logger.changed@ == d0.logger.changed@.insert(nv, node0) && d1.logger.parents@
        == d0.logger.parents@ && d1.logger.pending@ == d0.logger.pending@)
    &&& (fid != 0 ==> ({
        let base = d0.logger.log@.len() + 1;
        &&& d1.store() == crate::reconcile::install(staged, d0.root_id as int, d0.tree, fid, nv).0
        &&& d1.root_id == crate::reconcile::install(staged, d0.root_id as int, d0.tree, fid, nv).1
        &&& d1.logger.log@.len() == base + keys.len() + 1
        &&& (d1.logger.log@[d0.logger.log@.len() as int]
            matches NodeEvent::ValueUpdated { txid: t2, focus: f2, value: v2 } && f2 == fid && v2
            == nv)
        &&& (forall|z: int|
            base <= z < base + keys.len() ==> #[trigger] d1.logger.log@[z] is InternalNodeUpdated)
        &&& (d1.logger.log@[base + keys.len() as int]
            matches NodeEvent::InternalRootUpdated { txid: t3, focus: r3, value: v3 } && r3 == 0
            && v3 == d1.root_id)
        &&& (forall|i: int|
            0 <= i < keys.len() ==> (#[trigger] crate::domain::resolve_rsl_at(
                d1.store(),
                d1.root_id as int,
                keys.take(i),
                0,
            ) matches Rsl::Found(x) && x > d0.n_nodes()))
    }))
}


/// What writing a child into a cursor's container guarantees: the fresh item
/// and the rebuilt container (the old one with the key set to the item) are
/// stored; a creation or update event names the item's focus; the staged
/// store is installed upward with one internal event per rebuilt ancestor,
/// each ancestor a fresh identity, and the root installation logged last.
pub open spec fn child_written(
    d0: Domain,
    d1: Domain,
    fid: int,
    node0: usize,
    k: KeyModel,
    item: NodeModel,
    child: usize,
    newp: usize,
) -> bool {
    let m = d0.store()[node0 as int];
    let keys = d0.tree.path_of(fid);
    let pv = crate::reconcile::set_in(m, k, child);
    let staged = d0.store().push(item).push(pv);
    let base = d0.logger.log@.len() + 1;
    &&& child as int == d0.n_nodes()
    &&& newp as int == d0.n_nodes() + 1
    &&& d1.store()[child as int] == item
    &&& d1.store()[newp as int] == pv
    &&& crate::domain::resolve_rsl_at(d1.store(), d1.root_id as int, keys, 0) == Rsl::Found(
        newp as int,
    )
    &&& d1.store() == crate::reconcile::install(staged, d0.root_id as int, d1.tree, fid, newp).0
    &&& d1.root_id == crate::reconcile::install(staged, d0.root_id as int, d1.tree, fid, newp).1
    &&& d1.logger.log@.len() == base + keys.len() + 1
    &&& (child_of(m, k) is Some ==> (d1.logger.log@[d0.logger.log@.len() as int]
        matches NodeEvent::ValueUpdated { txid: t2, focus: f2, value: v2 } && v2 == child
        && d1.tree.path_of(f2 as int) == keys.push(k)))
    &&& (child_of(m, k) is None ==> (d1.logger.log@[d0.logger.log@.len() as int]
        matches NodeEvent::ValueCreated { txid: t2, focus: f2, value: v2 } && v2 == child
        && d1.tree.path_of(f2 as int) == keys.push(k)))
    &&& (forall|z: int|
        base <= z < base + keys.len() ==> #[trigger] d1.logger.log@[z] is InternalNodeUpdated)
    &&& (d1.logger.log@[base + keys.len() as int]
        matches NodeEvent::InternalRootUpdated { txid: t3, focus: r3, value: v3 } && r3 == 0 && v3
        == d1.root_id)
    &&& (forall|i: int|
        0 <= i < keys.len() ==> (#[trigger] crate::domain::resolve_rsl_at(
            d1.store(),
            d1.root_id as int,
            keys.take(i),
            0,
        ) matches Rsl::Found(x) && x > d0.n_nodes() + 1))
}

impl Spot {
    /// Reconcile the single recorded pending update up to the root and read
    /// the cursor at `focus` back from the new version.
    fn commit_edit(focus: Focus, d: &mut Domain) -> (r: Spot)
        requires
            old(d).core_wf(),
            old(d).pending_ok(),
            old(d).logger.pending@.len() == 1,
            old(d).logger.pending@[0].focus == focus.id,
            old(d).tree.is_live(focus.id as int),
        ensures
            final(d).wf(),
            final(d).tree == old(d).tree,
            final(d).n_nodes() >= old(d).n_nodes(),
            forall|j: int|
                0 <= j < old(d).n_nodes() ==> final(d).store()[j] == old(d).store()[j],
            old(d).logger.log@.is_prefix_of(final(d).logger.log@),
            r.focus == focus,
            r.node == old(d).logger.pending@[0].new_node,
            final(d).resolve(old(d).tree.path_of(focus.id as int)) == Rsl::Found(r.node as int),
            r.inv(*final(d)),
            ({
                let keys = old(d).tree.path_of(focus.id as int);
                let nv = old(d).logger.pending@[0].new_node;
                &&& final(d).store() == crate::reconcile::install(
                    old(d).store(),
                    old(d).root_id as int,
                    old(d).tree,
                    focus.id as int,
                    nv,
                ).0
                &&& final(d).root_id == crate::reconcile::install(
                    old(d).store(),
                    old(d).root_id as int,
                    old(d).tree,
                    focus.id as int,
                    nv,
                ).1
                &&& final(d).logger.log@.len() == old(d).logger.log@.len() + keys.len() + 1
                &&& (forall|z: int|
                    old(d).logger.log@.len() <= z < old(d).logger.log@.len() + keys.len()
                        ==> #[trigger] final(d).logger.log@[z] is InternalNodeUpdated)
                &&& (final(d).logger.log@[old(d).logger.log@.len() + keys.len() as int]
                    matches NodeEvent::InternalRootUpdated { txid: t3, focus: r3, value: v3 }
                    && r3 == 0 && v3 == final(d).root_id)
                &&& (forall|i: int|
                    0 <= i < keys.len() ==> (#[trigger] crate::domain::resolve_rsl_at(
                        final(d).store(),
                        final(d).root_id as int,
                        keys.take(i),
                        0,
                    ) matches Rsl::Found(x) && x >= old(d).n_nodes()))
            }),
    {
        let ghost d0 = *old(d);
        d.solve_pending_at();
        let step = d.get_focus_node(&focus);
        match step {
            Result::Ok(pr) => {
                proof {
                    crate::domain::lemma_resolve_bounds(
                        d.store(),
                        d.root_id as int,
                        d.tree.path_of(focus.id as int),
                        0,
                    );
                    if pr.0 is Some {
                        assert(d.tree.path_of(focus.id as int).len() > 0);
                        assert(focus.id != 0) by {
                            assert(d.tree.path_of(0).len() == 0);
                        }
                        crate::domain::lemma_resolve_bounds(
                            d.store(),
                            d.root_id as int,
                            d.tree.path_of(focus.id as int).drop_last(),
                            0,
                        );
                    }
                }
                Spot { focus, node: pr.1, parent: pr.0 }
            },
            Result::Err(_) => {
                proof {
                    assert(false);
                }
                Spot { focus, node: 0, parent: Option::None }
            },
        }
    }

    /// Replace the node at this focus with a freshly stored value, rebuild
    /// every ancestor up to the root, and return the cursor over the new
    /// version.  This never fails: the focus names the slot being replaced.
    fn set_value_node(self, d: &mut Domain, new_value: NodeValue) -> (r: Result<Spot, Error>)
        requires
            old(d).wf(),
            self.inv(*old(d)),
            node_ok(new_value@, old(d).n_nodes()),
        ensures
            final(d).wf(),
            final(d).tree == old(d).tree,
            forall|j: int|
                0 <= j < old(d).n_nodes() ==> final(d).store()[j] == old(d).store()[j],
            old(d).logger.log@.len() < final(d).logger.log@.len(),
            r matches Result::Ok(s2) && ({
                let nv = old(d).n_nodes();
                &&& final(d).store()[nv] == new_value@
                &&& s2.focus.id == self.focus.id
                &&& s2.node as int == nv
                &&& final(d).resolve(self.path(*old(d))) == Rsl::Found(nv)
                &&& s2.inv(*final(d))
                &&& replaced_at(
                    *old(d),
                    *final(d),
                    self.focus.id as int,
                    self.node,
                    s2.node,
                    new_value@,
                )
            }),
    {
        let ghost d0 = *old(d);
        let nv = d.alloc_node(new_value);
        proof {
            assert(d.store() == d0.store().push(new_value@));
        }
        if self.focus.is_root() {
            // The root is replaced directly: the single mutation point.
            let txid = d.logger.new_txid();
            d.logger.push(NodeEvent::RootUpdated { txid, focus: 0, value: nv });
            d.logger.push_change(self.node, nv);
            d.set_root_id(nv);
            proof {
                assert(d.tree.path_of(0).len() == 0);
                assert(self.path(d0).len() == 0);
            }
            Result::Ok(Spot { focus: self.focus, node: nv, parent: Option::None })
        } else {
            let txid = d.logger.new_txid();
            d.logger.push(NodeEvent::ValueUpdated { txid, focus: self.focus.id, value: nv });
            d.logger.push_change(self.node, nv);
            d.logger.push_pending(
                PendingUpdate { focus: self.focus.id, old_node: self.node, new_node: nv },
            );
            proof {
                crate::reconcile::lemma_resolve_frame(
                    d0.store(),
                    d.store(),
                    d0.root_id as int,
                    self.path(d0),
                    0,
                );
                assert(d.logger.pending@ =~= seq![
                    PendingUpdate { focus: self.focus.id, old_node: self.node, new_node: nv },
                ]);
            }
            let ghost d2 = *d;
            let s2 = Spot::commit_edit(self.focus, d);
            proof {
                assert(d2.store() == d0.store().push(new_value@));
                assert(d2.logger.log@.len() == d0.logger.log@.len() + 1);
                assert(d2.logger.log@.is_prefix_of(d.logger.log@));
                assert(d.logger.log@.subrange(0, d2.logger.log@.len() as int)
                    == d2.logger.log@);
                assert(d.logger.log@[d0.logger.log@.len() as int]
                    == d2.logger.log@[d0.logger.log@.len() as int]);
                assert(d2.logger.log@[d0.logger.log@.len() as int]
                    matches NodeEvent::ValueUpdated { txid: t2, focus: f2, value: v2 } && f2
                    == self.focus.id && v2 == nv);
            }
            Result::Ok(s2)
        }
    }

    /// Replace the node at this focus with an empty map.
    pub fn set_empty_map(self, d: &mut Domain) -> (r: Result<Spot, Error>)
        requires
            old(d).wf(),
            self.inv(*old(d)),
        ensures
            final(d).wf(),
            forall|j: int|
                0 <= j < old(d).n_nodes() ==> final(d).store()[j] == old(d).store()[j],
            r matches Result::Ok(s2) && ({
                let nv = old(d).n_nodes();
                &&& final(d).store()[nv] == NodeModel::Dict(crate::persist::empty_name_map())
                &&& s2.focus.id == self.focus.id
                &&& s2.node as int == nv
                &&& final(d).resolve(self.path(*old(d))) == Rsl::Found(nv)
                &&& s2.inv(*final(d))
                &&& replaced_at(
                    *old(d),
                    *final(d),
                    self.focus.id as int,
                    self.node,
                    s2.node,
                    NodeModel::Dict(crate::persist::empty_name_map()),
                )
            }),
    {
        let mv = MapValue::new();
        self.set_value_node(d, NodeValue::Dict(mv))
    }

    /// Replace the node at this focus with an empty list.
    pub fn set_empty_list(self, d: &mut Domain) -> (r: Result<Spot, Error>)
        requires
            old(d).wf(),
            self.inv(*old(d)),
        ensures
            final(d).wf(),
            forall|j: int|
                0 <= j < old(d).n_nodes() ==> final(d).store()[j] == old(d).store()[j],
            r matches Result::Ok(s2) && ({
                let nv = old(d).n_nodes();
                &&& final(d).store()[nv] == NodeModel::List(Seq::<usize>::empty())
                &&& s2.focus.id == self.focus.id
                &&& s2.node as int == nv
                &&& final(d).resolve(self.path(*old(d))) == Rsl::Found(nv)
                &&& s2.inv(*final(d))
                &&& replaced_at(
                    *old(d),
                    *final(d),
                    self.focus.id as int,
                    self.node,
                    s2.node,
                    NodeModel::List(Seq::<usize>::empty()),
                )
            }),
    {
        let lv = ListValue::new();
        self.set_value_node(d, NodeValue::List(lv))
    }

    /// Replace the node at this focus with a scalar or pre-built value; a
    /// container value may only hold children already in the store.
    pub fn set_value(self, d: &mut Domain, value: NodeValue) -> (r: Result<Spot, Error>)
        requires
            old(d).wf(),
            self.inv(*old(d)),
            node_ok(value@, old(d).n_nodes()),
        ensures
            final(d).wf(),
            forall|j: int|
                0 <= j < old(d).n_nodes() ==> final(d).store()[j] == old(d).store()[j],
            r matches Result::Ok(s2) && ({
                let nv = old(d).n_nodes();
                &&& final(d).store()[nv] == value@
                &&& s2.focus.id == self.focus.id
                &&& s2.node as int == nv
                &&& final(d).resolve(self.path(*old(d))) == Rsl::Found(nv)
                &&& s2.inv(*final(d))
                &&& replaced_at(
                    *old(d),
                    *final(d),
                    self.focus.id as int,
                    self.node,
                    s2.node,
                    value@,
                )
            }),
    {
        self.set_value_node(d, value)
    }
}

impl Spot {
    /// Write a freshly stored node as a child of this cursor's container
    /// node, replacing whatever the key named, and rebuild every ancestor up
    /// to the root.  Fails with `WrongItemAccess` when the key's kind does
    /// not fit this node, and with `NoSuchItem` when a list index is out of
    /// range; a map key may be new.
    /// Intern the item's focus, store the fresh child and the rebuilt
    /// container, record the event and the pending update.  On an error the
    /// domain's nodes, root and log are untouched.
    #[verifier::rlimit(100)]
    #[verifier::spinoff_prover]
    fn stage_child_edit(
        focus: &Focus,
        node: usize,
        d: &mut Domain,
        access_key: AccessKey,
        new_item: NodeValue,
    ) -> (r: Result<usize, Error>)
        requires
            old(d).wf(),
            old(d).tree.is_live(focus.id as int),
            (node as int) < old(d).n_nodes(),
            old(d).resolve(old(d).tree.path_of(focus.id as int)) == Rsl::Found(node as int),
            !(access_key@ is AtRoot),
            node_ok(new_item@, old(d).n_nodes()),
        ensures
            extends(old(d).tree, final(d).tree),
            final(d).tree.is_live(focus.id as int),
            final(d).tree.path_of(focus.id as int) == old(d).tree.path_of(focus.id as int),
            forall|j: int|
                0 <= j < old(d).n_nodes() ==> final(d).store()[j] == old(d).store()[j],
            ({
                let m = old(d).store()[node as int];
                match r {
                    Result::Ok(newp) => {
                        let child = old(d).n_nodes();
                        &&& final(d).core_wf()
                        &&& final(d).pending_ok()
                        &&& final(d).logger.pending@ == seq![
                            PendingUpdate { focus: focus.id, old_node: node, new_node: newp },
                        ]
                        &&& final(d).root_id == old(d).root_id
                        &&& kind_matches(m, access_key@)
                        &&& (m matches NodeModel::List(sq) ==> 0 <= norm_index(
                            sq.len() as int,
                            access_key@->Idx_0,
                        ) < sq.len())
                        &&& final(d).n_nodes() == old(d).n_nodes() + 2
                        &&& final(d).store()[child] == new_item@
                        &&& (newp as int) == child + 1
                        &&& final(d).store()[newp as int] == crate::reconcile::set_in(
                            m,
                            access_key@,
                            child as usize,
                        )
                        &&& final(d).logger.log@.len() == old(d).logger.log@.len() + 1
                        &&& (child_of(m, access_key@) is Some ==> (final(d).logger.log@[old(
                            d,
                        ).logger.log@.len() as int]
                            matches NodeEvent::ValueUpdated { txid: t2, focus: f2, value: v2 }
                            && v2 == child && final(d).tree.path_of(f2 as int) == old(
                            d,
                        ).tree.path_of(focus.id as int).push(access_key@)))
                        &&& (child_of(m, access_key@) is None ==> (final(d).logger.log@[old(
                            d,
                        ).logger.log@.len() as int]
                            matches NodeEvent::ValueCreated { txid: t2, focus: f2, value: v2 }
                            && v2 == child && final(d).tree.path_of(f2 as int) == old(
                            d,
                        ).tree.path_of(focus.id as int).push(access_key@)))
                        &&& old(d).logger.log@.is_prefix_of(final(d).logger.log@)
                    },
                    Result::Err(e) => {
                        &&& final(d).wf()
                        &&& final(d).nodes == old(d).nodes
                        &&& final(d).root_id == old(d).root_id
                        &&& final(d).logger == old(d).logger
                        &&& match e {
                            Error::WrongItemAccess { focus: fo, access_key: k } => !kind_matches(
                                m,
                                access_key@,
                            ) && fo == focus.id && k@ == access_key@,
                            Error::NoSuchItem { focus: fo, access_key: k } => kind_matches(
                                m,
                                access_key@,
                            ) && (m matches NodeModel::List(sq) && !(0 <= norm_index(
                                sq.len() as int,
                                access_key@->Idx_0,
                            ) < sq.len())) && fo == focus.id && k@ == access_key@,
                            _ => false,
                        }
                    },
                }
            }),
    {
        let ghost d0 = *old(d);
        // the item's focus is interned in any case
        let item_focus = focus.focus(&mut d.tree, access_key.duplicate());
        let ghost t1 = d.tree;
        let check: Result<(), Error> = match (&d.nodes[node], &access_key) {
            (NodeValue::Dict(_), AccessKey::Key(_)) => Result::Ok(()),
            (NodeValue::List(lv), AccessKey::Index(ix)) => {
                let ln = lv.len();
                match crate::node::normalize_index(ln, *ix) {
                    Option::Some(_) => Result::Ok(()),
                    Option::None => Result::Err(
                        Error::NoSuchItem { focus: focus.id, access_key: access_key.duplicate() },
                    ),
                }
            },
            _ => Result::Err(
                Error::WrongItemAccess { focus: focus.id, access_key: access_key.duplicate() },
            ),
        };
        match check {
            Result::Err(e) => {
                proof {
                    crate::focus::lemma_path_agree(d0.tree, t1, focus.id as int);
                    assert(d.store() =~= d0.store());
                }
                return Result::Err(e);
            },
            Result::Ok(_) => {
            },
        }
        let child = d.alloc_node(new_item);
        proof {
            assert(d.store()[node as int] == d0.store()[node as int]);
            assert(d.store()[node as int] == d.nodes@[node as int]@);
        }
        let pr3: (NodeValue, Option<usize>) = match (&d.nodes[node], &access_key) {
            (NodeValue::Dict(mv), AccessKey::Key(name)) => {
                proof {
                    assert(d.store()[node as int] == NodeModel::Dict(mv@));
                }
                let pr2 = mv.set_item(name.clone(), child);
                proof {
                    assert(pr2.0@ == mv@.insert(name@, child));
                }
                (NodeValue::Dict(pr2.0), pr2.1)
            },
            (NodeValue::List(lv), AccessKey::Index(ix)) => {
                proof {
                    assert(d.store()[node as int] == NodeModel::List(lv@));
                }
                match lv.set_item(*ix, child) {
                    Option::Some(pr2) => (NodeValue::List(pr2.0), Option::Some(pr2.1)),
                    Option::None => {
                        proof {
                            assert(false);
                        }
                        (NodeValue::Nil, Option::None)
                    },
                }
            },
            _ => {
                proof {
                    assert(false);
                }
                (NodeValue::Nil, Option::None)
            },
        };
        let (new_parent_val, old_item) = pr3;
        proof {
            assert(new_parent_val@ == crate::reconcile::set_in(
                d0.store()[node as int],
                access_key@,
                child,
            ));
            crate::domain::lemma_node_ok_weaken(d0.store()[node as int], node as int, d.n_nodes());
            crate::reconcile::lemma_set_in_child(
                d0.store()[node as int],
                access_key@,
                child,
                d.n_nodes(),
            );
        }
        let newp = d.alloc_node(new_parent_val);
        let txid = d.logger.new_txid();
        match old_item {
            Option::Some(old_id) => {
                d.logger.push(NodeEvent::ValueUpdated { txid, focus: item_focus.id, value: child });
                d.logger.push_change(old_id, child);
            },
            Option::None => {
                d.logger.push(NodeEvent::ValueCreated { txid, focus: item_focus.id, value: child });
            },
        }
        d.logger.push_parent_node(child, newp);
        proof {
            crate::focus::lemma_path_agree(d0.tree, d.tree, focus.id as int);
        }
        d.logger.push_pending(
            PendingUpdate { focus: focus.id, old_node: node, new_node: newp },
        );
        proof {
            crate::reconcile::lemma_resolve_frame(
                d0.store(),
                d.store(),
                d0.root_id as int,
                d0.tree.path_of(focus.id as int),
                0,
            );
            assert(d.logger.pending@ =~= seq![
                PendingUpdate { focus: focus.id, old_node: node, new_node: newp },
            ]);
        }
        Result::Ok(newp)
    }

    /// Write a freshly stored node as a child of this cursor's container
    /// node, replacing whatever the key named, and rebuild every ancestor up
    /// to the root.  Fails with `WrongItemAccess` when the key's kind does
    /// not fit this node, and with `NoSuchItem` when a list index is out of
    /// range; a map key may be new.
    fn set_child_node(self, d: &mut Domain, access_key: AccessKey, new_item: NodeValue) -> (r:
        Result<Spot, Error>)
        requires
            old(d).wf(),
            self.inv(*old(d)),
            !(access_key@ is AtRoot),
            node_ok(new_item@, old(d).n_nodes()),
        ensures
            final(d).wf(),
            extends(old(d).tree, final(d).tree),
            forall|j: int|
                0 <= j < old(d).n_nodes() ==> final(d).store()[j] == old(d).store()[j],
            ({
                let m = old(d).store()[self.node as int];
                match r {
                    Result::Ok(s2) => {
                        let child = old(d).n_nodes();
                        &&& kind_matches(m, access_key@)
                        &&& (m matches NodeModel::List(sq) ==> 0 <= norm_index(
                            sq.len() as int,
                            access_key@->Idx_0,
                        ) < sq.len())
                        &&& final(d).store()[child] == new_item@
                        &&& final(d).store()[s2.node as int] == crate::reconcile::set_in(
                            m,
                            access_key@,
                            child as usize,
                        )
                        &&& child_of(final(d).store()[s2.node as int], access_key@)
                            == Option::Some(child)
                        &&& final(d).resolve(self.path(*old(d))) == Rsl::Found(s2.node as int)
                        &&& s2.focus.id == self.focus.id
                        &&& s2.inv(*final(d))
                        &&& child_written(
                            *old(d),
                            *final(d),
                            self.focus.id as int,
                            self.node,
                            access_key@,
                            new_item@,
                            child as usize,
                            s2.node,
                        )
                    },
                    Result::Err(e) => {
                        &&& final(d).nodes == old(d).nodes
                        &&& final(d).root_id == old(d).root_id
                        &&& final(d).logger == old(d).logger
                        &&& match e {
                            Error::WrongItemAccess { focus, access_key: k } => !kind_matches(
                                m,
                                access_key@,
                            ) && focus == self.focus.id && k@ == access_key@,
                            Error::NoSuchItem { focus, access_key: k } => kind_matches(
                                m,
                                access_key@,
                            ) && (m matches NodeModel::List(sq) && !(0 <= norm_index(
                                sq.len() as int,
                                access_key@->Idx_0,
                            ) < sq.len())) && focus == self.focus.id && k@ == access_key@,
                            _ => false,
                        }
                    },
                }
            }),
    {
        let ghost d0 = *old(d);
        let ghost k = access_key@;
        let staged = Spot::stage_child_edit(&self.focus, self.node, d, access_key, new_item);
        match staged {
            Result::Err(e) => {
                self.focus.release(&mut d.tree);
                proof {
                    assert(d.store() =~= d0.store());
                }
                Result::Err(e)
            },
            Result::Ok(newp) => {
                let ghost d2 = *d;
                let s2 = Spot::commit_edit(self.focus, d);
                proof {
                    assert(s2.node == newp);
                    assert(d.store()[old(d).n_nodes()] == d2.store()[old(d).n_nodes()]);
                    assert(d.store()[newp as int] == d2.store()[newp as int]);
                    let m = d0.store()[self.node as int];
                    let pv = crate::reconcile::set_in(m, k, (d0.n_nodes()) as usize);
                    assert(d2.store() =~= d0.store().push(new_item@).push(pv));
                    assert(d2.logger.log@.len() == d0.logger.log@.len() + 1);
                    assert(d2.logger.log@.is_prefix_of(d.logger.log@));
                    assert(d.logger.log@.subrange(0, d2.logger.log@.len() as int)
                        == d2.logger.log@);
                    assert(d.logger.log@[d0.logger.log@.len() as int]
                        == d2.logger.log@[d0.logger.log@.len() as int]);
                    assert(d.tree.path_of(self.focus.id as int) == d0.tree.path_of(
                        self.focus.id as int,
                    ));
                    crate::domain::lemma_node_ok_weaken(
                        d0.store()[self.node as int],
                        self.node as int,
                        d0.n_nodes() + 1,
                    );
                    crate::reconcile::lemma_set_in_child(
                        d0.store()[self.node as int],
                        k,
                        (d0.n_nodes()) as usize,
                        d0.n_nodes() + 1,
                    );
                }
                Result::Ok(s2)
            },
        }
    }

    /// Create an empty map as the child under the key.
    pub fn set_map_item(self, d: &mut Domain, access_key: AccessKey) -> (r: Result<Spot, Error>)
        requires
            old(d).wf(),
            self.inv(*old(d)),
            !(access_key@ is AtRoot),
        ensures
            final(d).wf(),
            forall|j: int|
                0 <= j < old(d).n_nodes() ==> final(d).store()[j] == old(d).store()[j],
            ({
                let m = old(d).store()[self.node as int];
                match r {
                    Result::Ok(s2) => {
                        &&& kind_matches(m, access_key@)
                        &&& final(d).store()[old(d).n_nodes()] == NodeModel::Dict(
                            crate::persist::empty_name_map(),
                        )
                        &&& child_of(final(d).store()[s2.node as int], access_key@)
                            == Option::Some(old(d).n_nodes())
                        &&& final(d).resolve(self.path(*old(d))) == Rsl::Found(s2.node as int)
                        &&& s2.focus.id == self.focus.id
                        &&& s2.inv(*final(d))
                        &&& child_written(
                            *old(d),
                            *final(d),
                            self.focus.id as int,
                            self.node,
                            access_key@,
                            NodeModel::Dict(crate::persist::empty_name_map()),
                            old(d).n_nodes() as usize,
                            s2.node,
                        )
                    },
                    Result::Err(e) => match e {
                        Error::WrongItemAccess { focus, access_key: k } => !kind_matches(
                            m,
                            access_key@,
                        ) && focus == self.focus.id && k@ == access_key@,
                        Error::NoSuchItem { focus, access_key: k } => kind_matches(m, access_key@)
                            && (m matches NodeModel::List(sq) && !(0 <= norm_index(
                            sq.len() as int,
                            access_key@->Idx_0,
                        ) < sq.len())) && focus == self.focus.id && k@ == access_key@,
                        _ => false,
                    },
                }
            }),
    {
        let mv = MapValue::new();
        self.set_child_node(d, access_key, NodeValue::Dict(mv))
    }

    /// Create an empty list as the child under the key.
    pub fn set_list_item(self, d: &mut Domain, access_key: AccessKey) -> (r: Result<Spot, Error>)
        requires
            old(d).wf(),
            self.inv(*old(d)),
            !(access_key@ is AtRoot),
        ensures
            final(d).wf(),
            forall|j: int|
                0 <= j < old(d).n_nodes() ==> final(d).store()[j] == old(d).store()[j],
            ({
                let m = old(d).store()[self.node as int];
                match r {
                    Result::Ok(s2) => {
                        &&& kind_matches(m, access_key@)
                        &&& final(d).store()[old(d).n_nodes()] == NodeModel::List(
                            Seq::<usize>::empty(),
                        )
                        &&& child_of(final(d).store()[s2.node as int], access_key@)
                            == Option::Some(old(d).n_nodes())
                        &&& final(d).resolve(self.path(*old(d))) == Rsl::Found(s2.node as int)
                        &&& s2.focus.id == self.focus.id
                        &&& s2.inv(*final(d))
                        &&& child_written(
                            *old(d),
                            *final(d),
                            self.focus.id as int,
                            self.node,
                            access_key@,
                            NodeModel::List(Seq::<usize>::empty()),
                            old(d).n_nodes() as usize,
                            s2.node,
                        )
                    },
                    Result::Err(e) => match e {
                        Error::WrongItemAccess { focus, access_key: k } => !kind_matches(
                            m,
                            access_key@,
                        ) && focus == self.focus.id && k@ == access_key@,
                        Error::NoSuchItem { focus, access_key: k } => kind_matches(m, access_key@)
                            && (m matches NodeModel::List(sq) && !(0 <= norm_index(
                            sq.len() as int,
                            access_key@->Idx_0,
                        ) < sq.len())) && focus == self.focus.id && k@ == access_key@,
                        _ => false,
                    },
                }
            }),
    {
        let lv = ListValue::new();
        self.set_child_node(d, access_key, NodeValue::List(lv))
    }

    /// Write a scalar as the child under the key.  Fails with
    /// `WrongItemAccess` when the key's kind and this node's variant
    /// disagree, and with `NoSuchItem` when a list index is out of range.
    pub fn set_item(self, d: &mut Domain, access_key: AccessKey, value: NodeValue) -> (r: Result<
        Spot,
        Error,
    >)
        requires
            old(d).wf(),
            self.inv(*old(d)),
            !(access_key@ is AtRoot),
            node_ok(value@, old(d).n_nodes()),
        ensures
            final(d).wf(),
            forall|j: int|
                0 <= j < old(d).n_nodes() ==> final(d).store()[j] == old(d).store()[j],
            ({
                let m = old(d).store()[self.node as int];
                match r {
                    Result::Ok(s2) => {
                        &&& kind_matches(m, access_key@)
                        &&& final(d).store()[old(d).n_nodes()] == value@
                        &&& final(d).store()[s2.node as int] == crate::reconcile::set_in(
                            m,
                            access_key@,
                            old(d).n_nodes() as usize,
                        )
                        &&& child_of(final(d).store()[s2.node as int], access_key@)
                            == Option::Some(old(d).n_nodes())
                        &&& final(d).resolve(self.path(*old(d))) == Rsl::Found(s2.node as int)
                        &&& s2.focus.id == self.focus.id
                        &&& s2.inv(*final(d))
                        &&& child_written(
                            *old(d),
                            *final(d),
                            self.focus.id as int,
                            self.node,
                            access_key@,
                            value@,
                            old(d).n_nodes() as usize,
                            s2.node,
                        )
                    },
                    Result::Err(e) => match e {
                        Error::WrongItemAccess { focus, access_key: k } => !kind_matches(
                            m,
                            access_key@,
                        ) && focus == self.focus.id && k@ == access_key@,
                        Error::NoSuchItem { focus, access_key: k } => kind_matches(m, access_key@)
                            && (m matches NodeModel::List(sq) && !(0 <= norm_index(
                            sq.len() as int,
                            access_key@->Idx_0,
                        ) < sq.len())) && focus == self.focus.id && k@ == access_key@,
                        _ => false,
                    },
                }
            }),
    {
        self.set_child_node(d, access_key, value)
    }
}

impl Spot {
    /// Record the replacement of this focus's node and reconcile it upward.
    fn apply_replace(focus: Focus, node: usize, newp: usize, d: &mut Domain) -> (r: Spot)
        requires
            old(d).core_wf(),
            old(d).logger.pending@.len() == 0,
            old(d).tree.is_live(focus.id as int),
            (node as int) < old(d).n_nodes(),
            (newp as int) < old(d).n_nodes(),
            old(d).resolve(old(d).tree.path_of(focus.id as int)) == Rsl::Found(node as int),
        ensures
            final(d).wf(),
            final(d).tree == old(d).tree,
            final(d).n_nodes() >= old(d).n_nodes(),
            forall|j: int|
                0 <= j < old(d).n_nodes() ==> final(d).store()[j] == old(d).store()[j],
            old(d).logger.log@.is_prefix_of(final(d).logger.log@),
            r.focus == focus,
            r.node == newp,
            final(d).resolve(old(d).tree.path_of(focus.id as int)) == Rsl::Found(newp as int),
            r.inv(*final(d)),
            ({
                let keys = old(d).tree.path_of(focus.id as int);
                &&& final(d).store() == crate::reconcile::install(
                    old(d).store(),
                    old(d).root_id as int,
                    old(d).tree,
                    focus.id as int,
                    newp,
                ).0
                &&& final(d).root_id == crate::reconcile::install(
                    old(d).store(),
                    old(d).root_id as int,
                    old(d).tree,
                    focus.id as int,
                    newp,
                ).1
                &&& final(d).logger.log@.len() == old(d).logger.log@.len() + keys.len() + 1
                &&& (forall|z: int|
                    old(d).logger.log@.len() <= z < old(d).logger.log@.len() + keys.len()
                        ==> #[trigger] final(d).logger.log@[z] is InternalNodeUpdated)
                &&& (final(d).logger.log@[old(d).logger.log@.len() + keys.len() as int]
                    matches NodeEvent::InternalRootUpdated { txid: t3, focus: r3, value: v3 }
                    && r3 == 0 && v3 == final(d).root_id)
                &&& (forall|i: int|
                    0 <= i < keys.len() ==> (#[trigger] crate::domain::resolve_rsl_at(
                        final(d).store(),
                        final(d).root_id as int,
                        keys.take(i),
                        0,
                    ) matches Rsl::Found(x) && x >= old(d).n_nodes()))
            }),
    {
        d.logger.push_pending(PendingUpdate { focus: focus.id, old_node: node, new_node: newp });
        proof {
            assert(d.logger.pending@ =~= seq![
                PendingUpdate { focus: focus.id, old_node: node, new_node: newp },
            ]);
        }
        Spot::commit_edit(focus, d)
    }

    /// Append a freshly stored node to this list node; the new item's focus
    /// index is the index after appending.  Fails when this node is not a
    /// list.
    fn push_node(self, d: &mut Domain, new_item: NodeValue) -> (r: Result<Spot, Error>)
        requires
            old(d).wf(),
            self.inv(*old(d)),
            node_ok(new_item@, old(d).n_nodes()),
            old(d).store()[self.node as int] matches NodeModel::List(sq) ==> sq.len()
                < isize::MAX as int,
        ensures
            final(d).wf(),
            forall|j: int|
                0 <= j < old(d).n_nodes() ==> final(d).store()[j] == old(d).store()[j],
            ({
                let m = old(d).store()[self.node as int];
                match r {
                    Result::Ok(s2) => {
                        let child = old(d).n_nodes();
                        &&& m is List
                        &&& final(d).store()[child] == new_item@
                        &&& final(d).store()[s2.node as int] == NodeModel::List(
                            m->List_0.push(child as usize),
                        )
                        &&& final(d).resolve(self.path(*old(d))) == Rsl::Found(s2.node as int)
                        &&& s2.focus.id == self.focus.id
                        &&& s2.inv(*final(d))
                        &&& final(d).logger.log@.len() == old(d).logger.log@.len() + self.path(
                            *old(d),
                        ).len() + 2
                        &&& (final(d).logger.log@[old(d).logger.log@.len() as int]
                            matches NodeEvent::ListItemInserted { txid: t2, focus: f2, value: v2 }
                            && v2 as int == child && final(d).tree.path_of(f2 as int)
                            == self.path(*old(d)).push(KeyModel::Idx(m->List_0.len() as int)))
                    },
                    Result::Err(e) => !(m is List) && (
                    e matches Error::WrongItemAccess { focus, access_key: k } && focus
                        == self.focus.id && k@ == KeyModel::Idx(0)) && final(d).nodes == old(
                        d,
                    ).nodes && final(d).root_id == old(d).root_id && final(d).logger == old(
                        d,
                    ).logger,
                }
            }),
    {
        let ghost d0 = *old(d);
        let idx: usize;
        match &d.nodes[self.node] {
            NodeValue::List(lv) => {
                idx = lv.len();
            },
            _ => {
                let fid = self.focus.id;
                self.focus.release(&mut d.tree);
                proof {
                    assert(d.store() =~= d0.store());
                }
                return Result::Err(
                    Error::WrongItemAccess { focus: fid, access_key: AccessKey::Index(0) },
                );
            },
        }
        let child = d.alloc_node(new_item);
        proof {
            assert(d.store()[self.node as int] == d0.store()[self.node as int]);
            assert(d.store()[self.node as int] == d.nodes@[self.node as int]@);
        }
        let nl: NodeValue = match &d.nodes[self.node] {
            NodeValue::List(lv) => {
                proof {
                    assert(d.store()[self.node as int] == NodeModel::List(lv@));
                }
                NodeValue::List(lv.push(child))
            },
            _ => {
                proof {
                    assert(false);
                }
                NodeValue::Nil
            },
        };
        proof {
            assert(node_ok(nl@, d.n_nodes())) by {
                crate::domain::lemma_node_ok_weaken(
                    d0.store()[self.node as int],
                    self.node as int,
                    d.n_nodes(),
                );
                assert forall|x: int| 0 <= x < nl@->List_0.len() implies (#[trigger] nl@->List_0[x])
                    < d.n_nodes() by {
                    if x < nl@->List_0.len() - 1 {
                        assert(nl@->List_0[x] == d0.store()[self.node as int]->List_0[x]);
                    }
                }
            }
        }
        let newp = d.alloc_node(nl);
        let item_focus = self.focus.focus(&mut d.tree, AccessKey::Index(idx as isize));
        let txid = d.logger.new_txid();
        d.logger.push(NodeEvent::ListItemInserted { txid, focus: item_focus.id, value: child });
        d.logger.push_parent_node(child, newp);
        proof {
            crate::focus::lemma_path_agree(d0.tree, d.tree, self.focus.id as int);
            crate::reconcile::lemma_resolve_frame(
                d0.store(),
                d.store(),
                d0.root_id as int,
                self.path(d0),
                0,
            );
        }
        let ghost d2 = *d;
        let s2 = Spot::apply_replace(self.focus, self.node, newp, d);
        proof {
            assert(d2.logger.log@.is_prefix_of(d.logger.log@));
            assert(d.logger.log@.subrange(0, d2.logger.log@.len() as int) == d2.logger.log@);
            assert(d.logger.log@[d0.logger.log@.len() as int]
                == d2.logger.log@[d0.logger.log@.len() as int]);
            assert(d.tree.path_of(item_focus.id as int) == d2.tree.path_of(
                item_focus.id as int,
            ));
        }
        Result::Ok(s2)
    }

    /// Append an empty map to this list node.
    pub fn push_map_item(self, d: &mut Domain) -> (r: Result<Spot, Error>)
        requires
            old(d).wf(),
            self.inv(*old(d)),
            old(d).store()[self.node as int] matches NodeModel::List(sq) ==> sq.len()
                < isize::MAX as int,
        ensures
            final(d).wf(),
            forall|j: int|
                0 <= j < old(d).n_nodes() ==> final(d).store()[j] == old(d).store()[j],
            ({
                let m = old(d).store()[self.node as int];
                match r {
                    Result::Ok(s2) => {
                        &&& m is List
                        &&& final(d).store()[old(d).n_nodes()] == NodeModel::Dict(
                            crate::persist::empty_name_map(),
                        )
                        &&& final(d).store()[s2.node as int] == NodeModel::List(
                            m->List_0.push(old(d).n_nodes() as usize),
                        )
                        &&& final(d).resolve(self.path(*old(d))) == Rsl::Found(s2.node as int)
                        &&& s2.focus.id == self.focus.id
                        &&& s2.inv(*final(d))
                        &&& final(d).logger.log@.len() == old(d).logger.log@.len() + self.path(
                            *old(d),
                        ).len() + 2
                        &&& (final(d).logger.log@[old(d).logger.log@.len() as int]
                            matches NodeEvent::ListItemInserted { txid: t2, focus: f2, value: v2 }
                            && v2 as int == old(d).n_nodes() && final(d).tree.path_of(f2 as int)
                            == self.path(*old(d)).push(KeyModel::Idx(m->List_0.len() as int)))
                    },
                    Result::Err(e) => !(m is List) && (
                    e matches Error::WrongItemAccess { focus, access_key: k } && focus
                        == self.focus.id && k@ == KeyModel::Idx(0)) && final(d).nodes == old(
                        d,
                    ).nodes && final(d).root_id == old(d).root_id && final(d).logger == old(
                        d,
                    ).logger,
                }
            }),
    {
        let mv = MapValue::new();
        self.push_node(d, NodeValue::Dict(mv))
    }

    /// Append an empty list to this list node.
    pub fn push_list_item(self, d: &mut Domain) -> (r: Result<Spot, Error>)
        requires
            old(d).wf(),
            self.inv(*old(d)),
            old(d).store()[self.node as int] matches NodeModel::List(sq) ==> sq.len()
                < isize::MAX as int,
        ensures
            final(d).wf(),
            forall|j: int|
                0 <= j < old(d).n_nodes() ==> final(d).store()[j] == old(d).store()[j],
            ({
                let m = old(d).store()[self.node as int];
                match r {
                    Result::Ok(s2) => {
                        &&& m is List
                        &&& final(d).store()[old(d).n_nodes()] == NodeModel::List(
                            Seq::<usize>::empty(),
                        )
                        &&& final(d).store()[s2.node as int] == NodeModel::List(
                            m->List_0.push(old(d).n_nodes() as usize),
                        )
                        &&& final(d).resolve(self.path(*old(d))) == Rsl::Found(s2.node as int)
                        &&& s2.focus.id == self.focus.id
                        &&& s2.inv(*final(d))
                        &&& final(d).logger.log@.len() == old(d).logger.log@.len() + self.path(
                            *old(d),
                        ).len() + 2
                        &&& (final(d).logger.log@[old(d).logger.log@.len() as int]
                            matches NodeEvent::ListItemInserted { txid: t2, focus: f2, value: v2 }
                            && v2 as int == old(d).n_nodes() && final(d).tree.path_of(f2 as int)
                            == self.path(*old(d)).push(KeyModel::Idx(m->List_0.len() as int)))
                    },
                    Result::Err(e) => !(m is List) && (
                    e matches Error::WrongItemAccess { focus, access_key: k } && focus
                        == self.focus.id && k@ == KeyModel::Idx(0)) && final(d).nodes == old(
                        d,
                    ).nodes && final(d).root_id == old(d).root_id && final(d).logger == old(
                        d,
                    ).logger,
                }
            }),
    {
        let lv = ListValue::new();
        self.push_node(d, NodeValue::List(lv))
    }

    /// Append a scalar to this list node.
    pub fn push_item(self, d: &mut Domain, value: NodeValue) -> (r: Result<Spot, Error>)
        requires
            old(d).wf(),
            self.inv(*old(d)),
            node_ok(value@, old(d).n_nodes()),
            old(d).store()[self.node as int] matches NodeModel::List(sq) ==> sq.len()
                < isize::MAX as int,
        ensures
            final(d).wf(),
            forall|j: int|
                0 <= j < old(d).n_nodes() ==> final(d).store()[j] == old(d).store()[j],
            ({
                let m = old(d).store()[self.node as int];
                match r {
                    Result::Ok(s2) => {
                        &&& m is List
                        &&& final(d).store()[old(d).n_nodes()] == value@
                        &&& final(d).store()[s2.node as int] == NodeModel::List(
                            m->List_0.push(old(d).n_nodes() as usize),
                        )
                        &&& final(d).resolve(self.path(*old(d))) == Rsl::Found(s2.node as int)
                        &&& s2.focus.id == self.focus.id
                        &&& s2.inv(*final(d))
                        &&& final(d).logger.log@.len() == old(d).logger.log@.len() + self.path(
                            *old(d),
                        ).len() + 2
                        &&& (final(d).logger.log@[old(d).logger.log@.len() as int]
                            matches NodeEvent::ListItemInserted { txid: t2, focus: f2, value: v2 }
                            && v2 as int == old(d).n_nodes() && final(d).tree.path_of(f2 as int)
                            == self.path(*old(d)).push(KeyModel::Idx(m->List_0.len() as int)))
                    },
                    Result::Err(e) => !(m is List) && (
                    e matches Error::WrongItemAccess { focus, access_key: k } && focus
                        == self.focus.id && k@ == KeyModel::Idx(0)) && final(d).nodes == old(
                        d,
                    ).nodes && final(d).root_id == old(d).root_id && final(d).logger == old(
                        d,
                    ).logger,
                }
            }),
    {
        self.push_node(d, value)
    }

    /// Insert a scalar before the (circular) index in this list node.  Fails
    /// with `WrongItemAccess` when this node is not a list or the key is not
    /// an index, and with `NoSuchItem` when the position is out of range.
    pub fn insert_item(self, d: &mut Domain, access_key: AccessKey, value: NodeValue) -> (r: Result<
        Spot,
        Error,
    >)
        requires
            old(d).wf(),
            self.inv(*old(d)),
            node_ok(value@, old(d).n_nodes()),
        ensures
            final(d).wf(),
            forall|j: int|
                0 <= j < old(d).n_nodes() ==> final(d).store()[j] == old(d).store()[j],
            ({
                let m = old(d).store()[self.node as int];
                match r {
                    Result::Ok(s2) => {
                        let child = old(d).n_nodes();
                        &&& m is List && access_key@ is Idx
                        &&& 0 <= norm_index(m->List_0.len() as int, access_key@->Idx_0)
                            <= m->List_0.len()
                        &&& final(d).store()[child] == value@
                        &&& final(d).store()[s2.node as int] == NodeModel::List(
                            m->List_0.insert(
                                norm_index(m->List_0.len() as int, access_key@->Idx_0),
                                child as usize,
                            ),
                        )
                        &&& final(d).resolve(self.path(*old(d))) == Rsl::Found(s2.node as int)
                        &&& s2.focus.id == self.focus.id
                        &&& s2.inv(*final(d))
                        &&& final(d).logger.log@.len() == old(d).logger.log@.len() + self.path(
                            *old(d),
                        ).len() + 2
                        &&& (final(d).logger.log@[old(d).logger.log@.len() as int]
                            matches NodeEvent::ListItemInserted { txid: t2, focus: f2, value: v2 }
                            && v2 as int == child && final(d).tree.path_of(f2 as int)
                            == self.path(*old(d)).push(access_key@))
                    },
                    Result::Err(e) => ({
                        &&& final(d).nodes == old(d).nodes
                        &&& final(d).root_id == old(d).root_id
                        &&& final(d).logger == old(d).logger
                        &&& match e {
                            Error::WrongItemAccess { focus, access_key: k } => (!(m is List)
                                || !(access_key@ is Idx)) && focus == self.focus.id && k@
                                == access_key@,
                            Error::NoSuchItem { focus, access_key: k } => m is List && access_key@
                                is Idx && !(0 <= norm_index(
                                m->List_0.len() as int,
                                access_key@->Idx_0,
                            ) <= m->List_0.len()) && focus == self.focus.id && k@ == access_key@,
                            _ => false,
                        }
                    }),
                }
            }),
    {
        let ghost d0 = *old(d);
        match (&d.nodes[self.node], &access_key) {
            (NodeValue::List(lv), AccessKey::Index(ix)) => {
                // range is checked before anything is stored
                let ln = lv.len();
                let in_range = if *ix >= 0 {
                    (*ix as usize) <= ln
                } else {
                    ((-(*ix + 1)) as usize) + 1 <= ln
                };
                if !in_range {
                    let fid = self.focus.id;
                    self.focus.release(&mut d.tree);
                    proof {
                        assert(d.store() =~= d0.store());
                    }
                    return Result::Err(Error::NoSuchItem { focus: fid, access_key });
                }
            },
            _ => {
                let fid = self.focus.id;
                self.focus.release(&mut d.tree);
                proof {
                    assert(d.store() =~= d0.store());
                }
                return Result::Err(Error::WrongItemAccess { focus: fid, access_key });
            },
        }
        let child = d.alloc_node(value);
        proof {
            assert(d.store()[self.node as int] == d0.store()[self.node as int]);
            assert(d.store()[self.node as int] == d.nodes@[self.node as int]@);
        }
        let nl: NodeValue = match (&d.nodes[self.node], &access_key) {
            (NodeValue::List(lv), AccessKey::Index(ix)) => {
                proof {
                    assert(d.store()[self.node as int] == NodeModel::List(lv@));
                }
                match lv.insert(*ix, child) {
                    Option::Some(l2) => NodeValue::List(l2),
                    Option::None => {
                        proof {
                            assert(false);
                        }
                        NodeValue::Nil
                    },
                }
            },
            _ => {
                proof {
                    assert(false);
                }
                NodeValue::Nil
            },
        };
        proof {
            assert(node_ok(nl@, d.n_nodes())) by {
                crate::domain::lemma_node_ok_weaken(
                    d0.store()[self.node as int],
                    self.node as int,
                    d.n_nodes(),
                );
                let sq = d0.store()[self.node as int]->List_0;
                let nx = norm_index(sq.len() as int, access_key@->Idx_0);
                assert(nl@->List_0 == sq.insert(nx, child));
                assert forall|x: int| 0 <= x < nl@->List_0.len() implies (
                #[trigger] nl@->List_0[x]) < d.n_nodes() by {
                    if x < nx {
                        assert(nl@->List_0[x] == sq[x]);
                    } else if x == nx {
                        assert(nl@->List_0[x] == child);
                    } else {
                        assert(nl@->List_0[x] == sq[x - 1]);
                    }
                }
            }
        }
        let newp = d.alloc_node(nl);
        let item_focus = self.focus.focus(&mut d.tree, access_key);
        let txid = d.logger.new_txid();
        d.logger.push(NodeEvent::ListItemInserted { txid, focus: item_focus.id, value: child });
        d.logger.push_parent_node(child, newp);
        proof {
            crate::focus::lemma_path_agree(d0.tree, d.tree, self.focus.id as int);
            crate::reconcile::lemma_resolve_frame(
                d0.store(),
                d.store(),
                d0.root_id as int,
                self.path(d0),
                0,
            );
        }
        let ghost d2 = *d;
        let s2 = Spot::apply_replace(self.focus, self.node, newp, d);
        proof {
            assert(d2.logger.log@.is_prefix_of(d.logger.log@));
            assert(d.logger.log@.subrange(0, d2.logger.log@.len() as int) == d2.logger.log@);
            assert(d.logger.log@[d0.logger.log@.len() as int]
                == d2.logger.log@[d0.logger.log@.len() as int]);
            assert(d.tree.path_of(item_focus.id as int) == d2.tree.path_of(
                item_focus.id as int,
            ));
        }
        Result::Ok(s2)
    }

    /// Drop a map member or list element.  Fails with `NoSuchItem` when the
    /// key names nothing, `WrongItemAccess` when its kind does not fit.  The
    /// removal is recorded as a deletion event carrying the removed node.
    pub fn remove(self, d: &mut Domain, access_key: AccessKey) -> (r: Result<Spot, Error>)
        requires
            old(d).wf(),
            self.inv(*old(d)),
            !(access_key@ is AtRoot),
        ensures
            final(d).wf(),
            forall|j: int|
                0 <= j < old(d).n_nodes() ==> final(d).store()[j] == old(d).store()[j],
            ({
                let m = old(d).store()[self.node as int];
                match r {
                    Result::Ok(s2) => {
                        &&& kind_matches(m, access_key@)
                        &&& child_of(m, access_key@) is Some
                        &&& final(d).store()[s2.node as int] == (match (m, access_key@) {
                            (NodeModel::Dict(mp), KeyModel::Name(s)) => NodeModel::Dict(
                                mp.remove(s),
                            ),
                            (NodeModel::List(sq), KeyModel::Idx(ix)) => NodeModel::List(
                                sq.remove(norm_index(sq.len() as int, ix)),
                            ),
                            _ => m,
                        })
                        &&& final(d).resolve(self.path(*old(d))) == Rsl::Found(s2.node as int)
                        &&& s2.focus.id == self.focus.id
                        &&& s2.inv(*final(d))
                        &&& final(d).logger.log@[old(d).logger.log@.len() as int]
                            matches NodeEvent::ValueDeleted { txid, focus, value } && value as int
                            == child_of(m, access_key@)->0
                    },
                    Result::Err(e) => ({
                        &&& final(d).nodes == old(d).nodes
                        &&& final(d).root_id == old(d).root_id
                        &&& final(d).logger == old(d).logger
                        &&& match e {
                            Error::NoSuchItem { focus, access_key: k } => kind_matches(
                                m,
                                access_key@,
                            ) && child_of(m, access_key@) is None && focus == self.focus.id && k@
                                == access_key@,
                            Error::WrongItemAccess { focus, access_key: k } => !kind_matches(
                                m,
                                access_key@,
                            ) && focus == self.focus.id && k@ == access_key@,
                            _ => false,
                        }
                    }),
                }
            }),
    {
        let ghost d0 = *old(d);
        let step = d.get_item_node(&self.focus, self.node, &access_key);
        let old_item: usize;
        match step {
            Result::Ok(c) => {
                old_item = c;
            },
            Result::Err(e) => {
                self.focus.release(&mut d.tree);
                proof {
                    assert(d.store() =~= d0.store());
                }
                return Result::Err(e);
            },
        }
        let nl: NodeValue = match (&d.nodes[self.node], &access_key) {
            (NodeValue::Dict(mv), AccessKey::Key(name)) => {
                proof {
                    assert(d.store()[self.node as int] == NodeModel::Dict(mv@));
                }
                NodeValue::Dict(mv.remove(name))
            },
            (NodeValue::List(lv), AccessKey::Index(ix)) => {
                proof {
                    assert(d.store()[self.node as int] == NodeModel::List(lv@));
                }
                match lv.remove(*ix) {
                    Option::Some(l2) => NodeValue::List(l2),
                    Option::None => {
                        proof {
                            assert(false);
                        }
                        NodeValue::Nil
                    },
                }
            },
            _ => {
                proof {
                    assert(false);
                }
                NodeValue::Nil
            },
        };
        proof {
            assert(node_ok(nl@, d.n_nodes())) by {
                crate::domain::lemma_node_ok_weaken(
                    d0.store()[self.node as int],
                    self.node as int,
                    d.n_nodes(),
                );
            }
        }
        let newp = d.alloc_node(nl);
        let item_focus = self.focus.focus(&mut d.tree, access_key);
        let txid = d.logger.new_txid();
        d.logger.push(NodeEvent::ValueDeleted { txid, focus: item_focus.id, value: old_item });
        proof {
            crate::focus::lemma_path_agree(d0.tree, d.tree, self.focus.id as int);
            crate::reconcile::lemma_resolve_frame(
                d0.store(),
                d.store(),
                d0.root_id as int,
                self.path(d0),
                0,
            );
        }
        let ghost d2 = *d;
        let s2 = Spot::apply_replace(self.focus, self.node, newp, d);
        proof {
            assert(d2.logger.log@[d0.logger.log@.len() as int]
                matches NodeEvent::ValueDeleted { txid: t2, focus: f2, value: v2 } && v2
                == old_item);
            assert(d2.logger.log@.is_prefix_of(d.logger.log@));
            assert(d.logger.log@.subrange(0, d2.logger.log@.len() as int)
                == d2.logger.log@);
            assert(d.logger.log@[d0.logger.log@.len() as int] == d2.logger.log@[d0.logger.log@.len() as int]);
        }
        Result::Ok(s2)
    }
}

} // verus!
