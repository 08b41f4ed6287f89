//! Focus interning: a `Focus` is an identity-comparable representation of one
//! absolute path from the tree root.  All focuses of one tree live in a
//! `FocusTree` arena; a `Focus` value is a counted handle onto one arena slot.
//! For a given parent, at most one live focus exists per access key, so equal
//! paths yield equal handles.  Reference counting is explicit: every handle
//! the API returns holds one reference, released with `release`; a slot whose
//! last reference is dropped is removed from its parent's child table.
use vstd::prelude::*;

use crate::access_key::{AccessKey, KeyModel};

verus! {

/// One arena slot: the parent link, the key under the parent, the table of
/// live children, and the reference count (handles plus live children).
pub struct FocusRec {
    pub parent: Option<usize>,
    pub key: AccessKey,
    pub kids: Vec<(AccessKey, usize)>,
    pub refs: usize,
    pub live: bool,
}

/// The arena of path slots of one tree.  Slot 0 is the root and is never
/// collected; slots are never reused, so a slot index identifies one path
/// for the whole life of the tree.
pub struct FocusTree {
    pub recs: Vec<FocusRec>,
}

/// A counted handle onto one slot of a `FocusTree`.  Handles are moved, never
/// copied; comparing two handles for equality compares path identity.
#[derive(Debug, PartialEq, Eq, Hash)]
pub struct Focus {
    pub id: usize,
}

/// First entry of the child table whose key has the given model, if any.
pub open spec fn kids_lookup(kids: Seq<(AccessKey, usize)>, k: KeyModel) -> Option<usize>
    decreases kids.len(),
{
    if kids.len() == 0 {
        Option::None
    } else if kids[0].0@ == k {
        Option::Some(kids[0].1)
    } else {
        kids_lookup(kids.drop_first(), k)
    }
}

/// Saturating increment, used for reference counts.
pub open spec fn bump(r: usize) -> usize {
    if r < usize::MAX {
        (r + 1) as usize
    } else {
        r
    }
}

impl FocusTree {
    pub open spec fn n(self) -> int {
        self.recs@.len() as int
    }

    pub open spec fn rec(self, i: int) -> FocusRec {
        self.recs@[i]
    }

    pub open spec fn is_live(self, i: int) -> bool {
        0 <= i < self.n() && self.rec(i).live
    }

    pub open spec fn parent_of(self, i: int) -> int {
        self.rec(i).parent->0 as int
    }

    /// The access keys along the path from the root to slot `i`, in order.
    pub open spec fn path_of(self, i: int) -> Seq<KeyModel>
        decreases i,
    {
        if 0 < i < self.n() && self.rec(i).parent is Some && self.parent_of(i) < i {
            self.path_of(self.parent_of(i)).push(self.rec(i).key@)
        } else {
            Seq::empty()
        }
    }

    /// Well-formedness of the arena.
    pub open spec fn wf(self) -> bool {
        &&& self.n() >= 1
        &&& self.rec(0).parent is None
        &&& self.rec(0).key@ is AtRoot
        &&& self.rec(0).live
        &&& (forall|i: int|
            1 <= i < self.n() ==> (#[trigger] self.rec(i)).parent is Some && 0 <= self.parent_of(i)
                < i && !(self.rec(i).key@ is AtRoot))
        &&& (forall|i: int|
            0 <= i < self.n() && !(#[trigger] self.rec(i)).live ==> self.rec(i).kids@.len() == 0)
        &&& (forall|i: int|
            1 <= i < self.n() && (#[trigger] self.rec(i)).live ==> self.rec(i).refs >= 1)
        &&& (forall|i: int, j: int|
            0 <= i < self.n() && 0 <= j < (#[trigger] self.rec(i)).kids@.len() ==> {
                let e = #[trigger] self.rec(i).kids@[j];
                &&& i < e.1 < self.n()
                &&& self.rec(e.1 as int).live
                &&& self.rec(e.1 as int).parent == Option::Some(i as usize)
                &&& self.rec(e.1 as int).key@ == e.0@
            })
        &&& (forall|i: int, j1: int, j2: int|
            0 <= i < self.n() && 0 <= j1 < j2 < (#[trigger] self.rec(i)).kids@.len()
                ==> (#[trigger] self.rec(i).kids@[j1]).0@ != (#[trigger] self.rec(i).kids@[j2]).0@)
        &&& (forall|c: int|
            1 <= c < self.n() && (#[trigger] self.rec(c)).live ==> {
                let p = self.parent_of(c);
                &&& self.rec(p).live
                &&& kids_lookup(self.rec(p).kids@, self.rec(c).key@) is Some
                &&& kids_lookup(self.rec(p).kids@, self.rec(c).key@)->0 as int == c
            })
    }

    /// A fresh tree holding only the root slot, together with a handle on it.
    pub fn new() -> (r: (FocusTree, Focus))
        ensures
            r.0.wf(),
            r.0.n() == 1,
            r.1.id == 0,
            r.0.rec(0).kids@.len() == 0,
    {
        let root = FocusRec {
            parent: Option::None,
            key: AccessKey::Root,
            kids: Vec::new(),
            refs: 1,
            live: true,
        };
        let mut recs: Vec<FocusRec> = Vec::new();
        recs.push(root);
        (FocusTree { recs }, Focus { id: 0 })
    }

    /// A counted handle on the root slot.
    pub fn root(&mut self) -> (r: Focus)
        requires
            old(self).wf(),
        ensures
            final(self).wf(),
            r.id == 0,
            same_shape(*old(self), *final(self)),
            final(self).recs@ == old(self).recs@.update(
                0,
                FocusRec { refs: bump(old(self).rec(0).refs), ..old(self).rec(0) },
            ),
    {
        let r0 = self.recs[0].refs;
        if r0 < usize::MAX {
            self.recs[0].refs = r0 + 1;
        }
        proof {
            assert(self.recs@ =~= old(self).recs@.update(
                0,
                FocusRec { refs: bump(old(self).rec(0).refs), ..old(self).rec(0) },
            ));
            assert forall|i: int| 1 <= i < self.n() && (#[trigger] self.rec(i)).live implies self.rec(
                i,
            ).refs >= 1 by {
                assert(self.rec(i) == old(self).rec(i));
            }
            lemma_same_shape_wf(*old(self), *self);
        }
        Focus { id: 0 }
    }
}

/// Two arenas agree on slot count and on every slot's parent link and key;
/// paths, and well-formedness clauses not about counts or liveness, carry over.
pub open spec fn same_shape(a: FocusTree, b: FocusTree) -> bool {
    &&& a.n() == b.n()
    &&& (forall|i: int|
        0 <= i < a.n() ==> (#[trigger] b.rec(i)).parent == a.rec(i).parent && b.rec(i).key@
            == a.rec(i).key@ && b.rec(i).kids@ == a.rec(i).kids@ && b.rec(i).live == a.rec(
            i,
        ).live)
}

/// Arenas of the same shape give every slot the same path.
pub proof fn lemma_path_agree(a: FocusTree, b: FocusTree, i: int)
    requires
        0 <= i,
        i < a.n(),
        i < b.n(),
        forall|j: int|
            0 <= j <= i ==> j < a.n() && j < b.n() && (#[trigger] b.rec(j)).parent == a.rec(
                j,
            ).parent && b.rec(j).key@ == a.rec(j).key@,
    ensures
        a.path_of(i) == b.path_of(i),
    decreases i,
{
    if 0 < i && a.rec(i).parent is Some && a.parent_of(i) < i && 0 <= a.parent_of(i) {
        lemma_path_agree(a, b, a.parent_of(i));
    }
}

/// A shape-preserving change (counts or liveness only) keeps well-formedness,
/// except for the clauses on counts and liveness, which the caller shows.
proof fn lemma_same_shape_wf(a: FocusTree, b: FocusTree)
    requires
        a.wf(),
        same_shape(a, b),
        forall|i: int| 1 <= i < b.n() && (#[trigger] b.rec(i)).live ==> b.rec(i).refs >= 1,
    ensures
        b.wf(),
{
}

pub proof fn lemma_lookup_none_iff(s: Seq<(AccessKey, usize)>, k: KeyModel)
    ensures
        (kids_lookup(s, k) is None) <==> (forall|j: int| 0 <= j < s.len() ==> (#[trigger] s[j]).0@
            != k),
    decreases s.len(),
{
    if s.len() > 0 {
        lemma_lookup_none_iff(s.drop_first(), k);
        if s[0].0@ != k {
            assert forall|j: int| 0 <= j < s.len() && (kids_lookup(s, k) is None) implies (
            #[trigger] s[j]).0@ != k by {
                if j > 0 {
                    assert(s.drop_first()[j - 1] == s[j]);
                }
            }
            if forall|j: int| 0 <= j < s.len() ==> (#[trigger] s[j]).0@ != k {
                assert forall|j: int| 0 <= j < s.drop_first().len() implies (#[trigger] s.drop_first()[j]).0@
                    != k by {
                    assert(s.drop_first()[j] == s[j + 1]);
                }
            }
        }
    }
}

pub proof fn lemma_lookup_at(s: Seq<(AccessKey, usize)>, k: KeyModel, j: int)
    requires
        0 <= j < s.len(),
        s[j].0@ == k,
        forall|jj: int| 0 <= jj < j ==> (#[trigger] s[jj]).0@ != k,
    ensures
        kids_lookup(s, k) == Option::Some(s[j].1),
    decreases j,
{
    if j > 0 {
        assert forall|jj: int| 0 <= jj < j - 1 implies (#[trigger] s.drop_first()[jj]).0@ != k by {
            assert(s.drop_first()[jj] == s[jj + 1]);
        }
        assert(s.drop_first()[j - 1] == s[j]);
        lemma_lookup_at(s.drop_first(), k, j - 1);
    }
}

/// From a successful lookup, the index of the matching entry.
pub proof fn lemma_lookup_index(s: Seq<(AccessKey, usize)>, k: KeyModel) -> (j: int)
    requires
        kids_lookup(s, k) is Some,
    ensures
        0 <= j < s.len(),
        s[j].0@ == k,
        s[j].1 == kids_lookup(s, k)->0,
        forall|jj: int| 0 <= jj < j ==> (#[trigger] s[jj]).0@ != k,
    decreases s.len(),
{
    if s[0].0@ == k {
        0
    } else {
        let j0 = lemma_lookup_index(s.drop_first(), k);
        assert(s.drop_first()[j0] == s[j0 + 1]);
        assert forall|jj: int| 0 <= jj < j0 + 1 implies (#[trigger] s[jj]).0@ != k by {
            if jj > 0 {
                assert(s.drop_first()[jj - 1] == s[jj]);
            }
        }
        j0 + 1
    }
}

pub proof fn lemma_lookup_push(s: Seq<(AccessKey, usize)>, e: (AccessKey, usize), k: KeyModel)
    ensures
        kids_lookup(s.push(e), k) == if kids_lookup(s, k) is Some {
            kids_lookup(s, k)
        } else if e.0@ == k {
            Option::Some(e.1)
        } else {
            Option::<usize>::None
        },
    decreases s.len(),
{
    if s.len() == 0 {
        assert(s.push(e)[0] == e);
        assert(s.push(e).drop_first() =~= Seq::<(AccessKey, usize)>::empty());
        assert(kids_lookup(s, k) is None);
        assert(kids_lookup(s.push(e).drop_first(), k) is None);
    } else {
        assert(s.push(e)[0] == s[0]);
        assert(s.push(e).drop_first() =~= s.drop_first().push(e));
        lemma_lookup_push(s.drop_first(), e, k);
        assert(kids_lookup(s.push(e), k) == if s[0].0@ == k {
            Option::Some(s[0].1)
        } else {
            kids_lookup(s.drop_first().push(e), k)
        });
    }
}

/// Removing an entry keeps lookups of every other key, given unique keys.
pub proof fn lemma_lookup_remove(s: Seq<(AccessKey, usize)>, j: int, k: KeyModel)
    requires
        0 <= j < s.len(),
        s[j].0@ != k,
    ensures
        kids_lookup(s.remove(j), k) == kids_lookup(s, k),
    decreases s.len(),
{
    if j == 0 {
        assert(s.remove(0) =~= s.drop_first());
    } else {
        assert(s.remove(j)[0] == s[0]);
        assert(s.remove(j).drop_first() =~= s.drop_first().remove(j - 1));
        lemma_lookup_remove(s.drop_first(), j - 1, k);
    }
}

impl Focus {
    /// A fresh root focus together with the tree it lives in.
    pub fn new() -> (r: (FocusTree, Focus))
        ensures
            r.0.wf(),
            r.0.n() == 1,
            r.1.id == 0,
            r.0.rec(0).kids@.len() == 0,
    {
        FocusTree::new()
    }

    /// Path identity: two handles denote the same path exactly when their
    /// slots are equal.
    pub fn same(&self, other: &Focus) -> (r: bool)
        ensures
            r == (self.id == other.id),
    {
        self.id == other.id
    }

    pub fn is_root(&self) -> (r: bool)
        ensures
            r == (self.id == 0),
    {
        self.id == 0
    }

    /// The key under which this focus hangs off its parent.
    pub fn get_access_key(&self, t: &FocusTree) -> (r: AccessKey)
        requires
            t.wf(),
            (self.id as int) < t.n(),
        ensures
            r@ == t.rec(self.id as int).key@,
    {
        t.recs[self.id].key.duplicate()
    }

    /// A second counted handle on the same path.
    pub fn dup(&self, t: &mut FocusTree) -> (r: Focus)
        requires
            old(t).wf(),
            (self.id as int) < old(t).n(),
        ensures
            final(t).wf(),
            r.id == self.id,
            same_shape(*old(t), *final(t)),
            final(t).recs@ == old(t).recs@.update(
                self.id as int,
                FocusRec { refs: bump(old(t).rec(self.id as int).refs), ..old(t).rec(
                    self.id as int,
                ) },
            ),
    {
        let r0 = t.recs[self.id].refs;
        if r0 < usize::MAX {
            t.recs[self.id].refs = r0 + 1;
        }
        proof {
            assert(t.recs@ =~= old(t).recs@.update(
                self.id as int,
                FocusRec { refs: bump(old(t).rec(self.id as int).refs), ..old(t).rec(
                    self.id as int,
                ) },
            ));
            lemma_same_shape_wf(*old(t), *t);
        }
        Focus { id: self.id }
    }

    /// Look up or intern the child of this focus under `key`.  If a live
    /// child with that key exists it is returned (path interning); otherwise
    /// a fresh slot is appended and entered into the child table.  Either
    /// way, afterwards the table maps `key` to the returned focus.
    pub fn focus(&self, t: &mut FocusTree, key: AccessKey) -> (r: Focus)
        requires
            old(t).wf(),
            old(t).is_live(self.id as int),
            !(key@ is AtRoot),
        ensures
            final(t).wf(),
            final(t).is_live(r.id as int),
            final(t).rec(r.id as int).parent == Option::Some(self.id),
            final(t).rec(r.id as int).key@ == key@,
            final(t).path_of(r.id as int) == old(t).path_of(self.id as int).push(key@),
            kids_lookup(final(t).rec(self.id as int).kids@, key@) == Option::Some(r.id),
            old(t).n() <= final(t).n(),
            forall|i: int|
                0 <= i < old(t).n() ==> (#[trigger] final(t).rec(i)).parent == old(t).rec(i).parent
                    && final(t).rec(i).key == old(t).rec(i).key && final(t).rec(i).live == old(
                    t,
                ).rec(i).live,
            match kids_lookup(old(t).rec(self.id as int).kids@, key@) {
                Option::Some(c) => {
                    &&& r.id == c
                    &&& final(t).recs@ == old(t).recs@.update(
                        c as int,
                        FocusRec { refs: bump(old(t).rec(c as int).refs), ..old(t).rec(c as int) },
                    )
                },
                Option::None => {
                    &&& r.id == old(t).n()
                    &&& final(t).n() == old(t).n() + 1
                    &&& final(t).rec(r.id as int).kids@.len() == 0
                    &&& final(t).rec(r.id as int).refs == 1
                    &&& final(t).rec(self.id as int).kids@ == old(t).rec(
                        self.id as int,
                    ).kids@.push((key, r.id))
                    &&& final(t).rec(self.id as int).refs == bump(old(t).rec(self.id as int).refs)
                    &&& forall|i: int|
                        0 <= i < old(t).n() && i != self.id as int ==> final(t).rec(i) == old(
                            t,
                        ).rec(i)
                },
            },
    {
        let sid = self.id;
        match kids_find(t, sid, &key) {
            Option::Some(c) => {
                proof {
                    let okids = old(t).rec(sid as int).kids@;
                    let j = lemma_lookup_index(okids, key@);
                    assert(okids[j].1 == c);
                }
                let r0 = t.recs[c].refs;
                if r0 < usize::MAX {
                    t.recs[c].refs = r0 + 1;
                }
                proof {
                    assert(t.recs@ =~= old(t).recs@.update(
                        c as int,
                        FocusRec { refs: bump(old(t).rec(c as int).refs), ..old(t).rec(c as int) },
                    ));
                    assert forall|i: int| 1 <= i < t.n() && (#[trigger] t.rec(i)).live implies t.rec(
                        i,
                    ).refs >= 1 by {
                        if i != c as int {
                            assert(t.rec(i) == old(t).rec(i));
                        }
                    }
                    lemma_same_shape_wf(*old(t), *t);
                    lemma_path_agree(*old(t), *t, c as int);
                    assert(t.path_of(c as int) == t.path_of(sid as int).push(key@));
                    lemma_path_agree(*old(t), *t, sid as int);
                }
                Focus { id: c }
            },
            Option::None => {
                let rid = t.recs.len();
                let entry_key = key.duplicate();
                let newrec = FocusRec {
                    parent: Option::Some(sid),
                    key,
                    kids: Vec::new(),
                    refs: 1,
                    live: true,
                };
                t.recs[sid].kids.push((entry_key, rid));
                let r0 = t.recs[sid].refs;
                if r0 < usize::MAX {
                    t.recs[sid].refs = r0 + 1;
                }
                let ghost gnew = newrec;
                t.recs.push(newrec);
                proof {
                    lemma_focus_intern_wf(*old(t), *t, sid, gnew, rid);
                    lemma_path_agree(*old(t), *t, sid as int);
                }
                Focus { id: rid }
            },
        }
    }

    /// Drop one reference to this path.  When the last reference to a
    /// non-root focus goes, the slot is collected: it leaves its parent's
    /// child table, and the reference it held on the parent is dropped in
    /// turn.  The root slot is never collected.
    pub fn release(self, t: &mut FocusTree)
        requires
            old(t).wf(),
            (self.id as int) < old(t).n(),
        ensures
            final(t).wf(),
            final(t).n() == old(t).n(),
            forall|i: int|
                0 <= i < old(t).n() ==> (#[trigger] final(t).rec(i)).parent == old(t).rec(i).parent
                    && final(t).rec(i).key == old(t).rec(i).key,
            forall|i: int| final(t).is_live(i) ==> old(t).is_live(i),
            forall|i: int|
                0 <= i < old(t).n() && old(t).is_live(i) && (#[trigger] old(t).rec(i)).refs >= 2
                    ==> final(t).is_live(i),
            old(t).is_live(self.id as int) && self.id != 0 && old(t).rec(self.id as int).refs == 1
                && old(t).rec(self.id as int).kids@.len() == 0 ==> {
                &&& !final(t).is_live(self.id as int)
                &&& (final(t).is_live(old(t).parent_of(self.id as int)) ==> kids_lookup(
                    final(t).rec(old(t).parent_of(self.id as int)).kids@,
                    old(t).rec(self.id as int).key@,
                ) is None)
            },
            old(t).is_live(self.id as int) && self.id != 0 && old(t).rec(self.id as int).refs == 1
                && old(t).rec(self.id as int).kids@.len() == 0 && (old(t).parent_of(
                self.id as int,
            ) == 0 || old(t).rec(old(t).parent_of(self.id as int)).refs >= 2) ==> ({
                let p = old(t).parent_of(self.id as int);
                &&& !final(t).is_live(self.id as int)
                &&& final(t).rec(p).live == old(t).rec(p).live
                &&& (forall|i: int|
                    0 <= i < old(t).n() && i != self.id as int && i != p
                        ==> #[trigger] final(t).rec(i) == old(t).rec(i))
            }),
            old(t).is_live(self.id as int) && (old(t).rec(self.id as int).refs != 1 || old(t).rec(
                self.id as int,
            ).kids@.len() > 0 || self.id == 0) ==> final(t).n() == old(t).n() && final(t).rec(
                self.id as int,
            ).live && (forall|i: int|
                0 <= i < old(t).n() && i != self.id as int ==> #[trigger] final(t).rec(i) == old(
                    t,
                ).rec(i)),
            old(t).is_live(self.id as int) && (old(t).rec(self.id as int).refs > 1 || (self.id == 0
                && old(t).rec(self.id as int).refs == 1)) ==> final(t).recs@ == old(
                t,
            ).recs@.update(
                self.id as int,
                FocusRec { refs: (old(t).rec(self.id as int).refs - 1) as usize, ..old(t).rec(
                    self.id as int,
                ) },
            ),
            !old(t).is_live(self.id as int) || old(t).rec(self.id as int).refs == 0 || (self.id
                != 0 && old(t).rec(self.id as int).refs == 1 && old(t).rec(
                self.id as int,
            ).kids@.len() > 0) ==> *final(t) == *old(t),
    {
        release_ref(t, self.id);
    }
}

/// The slot-count and liveness facts that `release_ref` guarantees.
pub open spec fn release_frame(a: FocusTree, b: FocusTree) -> bool {
    &&& b.n() == a.n()
    &&& (forall|i: int|
        0 <= i < a.n() ==> (#[trigger] b.rec(i)).parent == a.rec(i).parent && b.rec(i).key == a.rec(
            i,
        ).key)
    &&& (forall|i: int| b.is_live(i) ==> a.is_live(i))
    &&& (forall|i: int, k: KeyModel|
        0 <= i < a.n() && #[trigger] kids_lookup(a.rec(i).kids@, k) is None
            ==> #[trigger] kids_lookup(b.rec(i).kids@, k) is None)
}

/// Drop one recorded reference to slot `id`, collecting the slot (and,
/// transitively, ancestors that lose their last reference) when it goes to
/// zero with no live children.
fn release_ref(t: &mut FocusTree, id: usize)
    requires
        old(t).wf(),
        (id as int) < old(t).n(),
    ensures
        final(t).wf(),
        release_frame(*old(t), *final(t)),
        forall|i: int|
            0 <= i < old(t).n() && old(t).is_live(i) && (#[trigger] old(t).rec(i)).refs >= 2
                ==> final(t).is_live(i),
        old(t).is_live(id as int) && id != 0 && old(t).rec(id as int).refs == 1 && old(t).rec(
            id as int,
        ).kids@.len() == 0 ==> {
            &&& !final(t).is_live(id as int)
            &&& (final(t).is_live(old(t).parent_of(id as int)) ==> kids_lookup(
                final(t).rec(old(t).parent_of(id as int)).kids@,
                old(t).rec(id as int).key@,
            ) is None)
        },
        old(t).is_live(id as int) && id != 0 && old(t).rec(id as int).refs == 1 && old(t).rec(
            id as int,
        ).kids@.len() == 0 && (old(t).parent_of(id as int) == 0 || old(t).rec(
            old(t).parent_of(id as int),
        ).refs >= 2) ==> ({
            let p = old(t).parent_of(id as int);
            &&& !final(t).is_live(id as int)
            &&& final(t).rec(p).live == old(t).rec(p).live
            &&& (forall|i: int|
                0 <= i < old(t).n() && i != id as int && i != p ==> #[trigger] final(t).rec(i)
                    == old(t).rec(i))
        }),
        old(t).is_live(id as int) && (old(t).rec(id as int).refs != 1 || old(t).rec(
            id as int,
        ).kids@.len() > 0 || id == 0) ==> final(t).n() == old(t).n() && final(t).rec(
            id as int,
        ).live && (forall|i: int|
            0 <= i < old(t).n() && i != id as int ==> #[trigger] final(t).rec(i) == old(t).rec(i)),
        old(t).is_live(id as int) && (old(t).rec(id as int).refs > 1 || (id == 0 && old(t).rec(
            id as int,
        ).refs == 1)) ==> final(t).recs@ == old(t).recs@.update(
            id as int,
            FocusRec { refs: (old(t).rec(id as int).refs - 1) as usize, ..old(t).rec(id as int) },
        ),
        !old(t).is_live(id as int) || old(t).rec(id as int).refs == 0 || (id != 0 && old(t).rec(
            id as int,
        ).refs == 1 && old(t).rec(id as int).kids@.len() > 0) ==> *final(t) == *old(t),
    decreases id,
{
    if !t.recs[id].live {
        return ;
    }
    let refs = t.recs[id].refs;
    if refs == 0 {
        return ;
    }
    if refs > 1 || id == 0 {
        t.recs[id].refs = refs - 1;
        proof {
            assert(t.recs@ =~= old(t).recs@.update(
                id as int,
                FocusRec { refs: (refs - 1) as usize, ..old(t).rec(id as int) },
            ));
            assert forall|i: int| 1 <= i < t.n() && (#[trigger] t.rec(i)).live implies t.rec(
                i,
            ).refs >= 1 by {
                if i != id as int {
                    assert(t.rec(i) == old(t).rec(i));
                }
            }
            lemma_same_shape_wf(*old(t), *t);
            lemma_release_frame_refs(*old(t), *t, id as int);
        }
        return ;
    }
    // refs == 1 on a non-root slot: the last reference goes.
    if t.recs[id].kids.len() > 0 {
        // Children still reach this slot; their links keep it interned.
        return ;
    }
    let p = match t.recs[id].parent {
        Option::Some(p) => p,
        Option::None => {
            proof {
                assert(false);
            }
            0
        },
    };
    t.recs[id].live = false;
    t.recs[id].refs = 0;
    let ghost key_model = old(t).rec(id as int).key@;
    proof {
        assert(kids_lookup(old(t).rec(p as int).kids@, key_model) is Some);
        let jx = lemma_lookup_index(old(t).rec(p as int).kids@, key_model);
        assert(t.rec(p as int).kids@ == old(t).rec(p as int).kids@);
        assert((t.rec(p as int).kids@[jx]).1 == id);
    }
    let j = kids_find_child(t, p, id);
    t.recs[p].kids.remove(j);
    proof {
        lemma_release_removed_wf(*old(t), *t, id as int, p as int, j as int);
    }
    let ghost t_removed = *t;
    release_ref(t, p);
    proof {
        lemma_release_compose(*old(t), t_removed, *t, id as int, p as int, key_model);
    }
}

/// The index of the child-table entry of slot `p` that points at slot `c`.
fn kids_find_child(t: &FocusTree, p: usize, c: usize) -> (j: usize)
    requires
        (p as int) < t.n(),
        exists|x: int| 0 <= x < t.rec(p as int).kids@.len() && (#[trigger] t.rec(p as int).kids@[x]).1 == c,
    ensures
        (j as int) < t.rec(p as int).kids@.len(),
        t.rec(p as int).kids@[j as int].1 == c,
{
    let ghost kids = t.rec(p as int).kids@;
    let ghost jg: int = choose|x: int| 0 <= x < kids.len() && (#[trigger] kids[x]).1 == c;
    let kn = t.recs[p].kids.len();
    let mut j: usize = 0;
    while j < kn
        invariant
            (p as int) < t.n(),
            kids == t.rec(p as int).kids@,
            kn == kids.len(),
            j <= kn,
            0 <= jg < kids.len(),
            kids[jg].1 == c,
            j <= jg,
        decreases kn - j,
    {
        if t.recs[p].kids[j].1 == c {
            return j;
        }
        j += 1;
    }
    proof {
        assert(false);
    }
    0
}

/// Scan the child table of slot `sid` for `key`; agrees with `kids_lookup`.
fn kids_find(t: &FocusTree, sid: usize, key: &AccessKey) -> (r: Option<usize>)
    requires
        (sid as int) < t.n(),
    ensures
        r == kids_lookup(t.rec(sid as int).kids@, key@),
{
    let ghost kids = t.rec(sid as int).kids@;
    let kn = t.recs[sid].kids.len();
    let mut j: usize = 0;
    while j < kn
        invariant
            (sid as int) < t.n(),
            kids == t.rec(sid as int).kids@,
            kn == kids.len(),
            j <= kn,
            forall|jj: int| 0 <= jj < j ==> (#[trigger] kids[jj]).0@ != key@,
        decreases kn - j,
    {
        if t.recs[sid].kids[j].0.key_eq(key) {
            proof {
                lemma_lookup_at(kids, key@, j as int);
            }
            return Option::Some(t.recs[sid].kids[j].1);
        }
        j += 1;
    }
    proof {
        lemma_lookup_none_iff(kids, key@);
    }
    Option::None
}

/// Decrementing one slot's count, with its table and liveness kept, keeps
/// the release frame.
proof fn lemma_release_frame_refs(a: FocusTree, b: FocusTree, i: int)
    requires
        0 <= i < a.n(),
        b.n() == a.n(),
        b.rec(i).parent == a.rec(i).parent,
        b.rec(i).key == a.rec(i).key,
        b.rec(i).kids@ == a.rec(i).kids@,
        b.rec(i).live == a.rec(i).live,
        forall|x: int| 0 <= x < a.n() && x != i ==> #[trigger] b.rec(x) == a.rec(x),
    ensures
        release_frame(a, b),
{
    assert forall|x: int, k: KeyModel|
        0 <= x < a.n() && #[trigger] kids_lookup(a.rec(x).kids@, k) is None
        implies #[trigger] kids_lookup(b.rec(x).kids@, k) is None by {
        assert(b.rec(x).kids@ == a.rec(x).kids@);
    }
}

/// Collecting a childless, last-reference slot and removing its entry from
/// the parent's table restores well-formedness, and its key no longer looks
/// up in the parent's table.
#[verifier::rlimit(60)]
proof fn lemma_release_removed_wf(a: FocusTree, b: FocusTree, id: int, p: int, j: int)
    requires
        a.wf(),
        0 < id < a.n(),
        a.rec(id).live,
        a.rec(id).kids@.len() == 0,
        p == a.parent_of(id),
        0 <= j < a.rec(p).kids@.len(),
        a.rec(p).kids@[j].1 == id,
        b.n() == a.n(),
        !b.rec(id).live,
        b.rec(id).parent == a.rec(id).parent,
        b.rec(id).key == a.rec(id).key,
        b.rec(id).kids@ == a.rec(id).kids@,
        b.rec(p).kids@ == a.rec(p).kids@.remove(j),
        b.rec(p).parent == a.rec(p).parent,
        b.rec(p).key == a.rec(p).key,
        b.rec(p).live == a.rec(p).live,
        b.rec(p).refs == a.rec(p).refs,
        forall|i: int| 0 <= i < a.n() && i != id && i != p ==> #[trigger] b.rec(i) == a.rec(i),
    ensures
        b.wf(),
        kids_lookup(b.rec(p).kids@, a.rec(id).key@) is None,
        release_frame(a, b),
{
    let pk = a.rec(p).kids@;
    let rk = pk.remove(j);
    assert(0 <= p < id);
    // Only entry j of the parent's table points at `id`: a second entry would
    // carry the same key, against key uniqueness.
    assert forall|x: int| 0 <= x < pk.len() && x != j implies (#[trigger] pk[x]).1 != id by {
        if pk[x].1 == id {
            assert(a.rec(id).key@ == pk[x].0@);
            assert(a.rec(id).key@ == pk[j].0@);
        }
    }
    assert forall|x: int| 0 <= x < rk.len() implies #[trigger] rk[x] == (if x < j {
        pk[x]
    } else {
        pk[x + 1]
    }) by {
        assert(rk =~= pk.subrange(0, j) + pk.subrange(j + 1, pk.len() as int));
    }
    // No remaining entry carries the collected key.
    assert forall|x: int| 0 <= x < rk.len() implies (#[trigger] rk[x]).0@ != a.rec(id).key@ by {
        assert(pk[j].0@ == a.rec(id).key@);
    }
    lemma_lookup_none_iff(rk, a.rec(id).key@);
    // Soundness of the remaining entries.
    assert forall|i: int, x: int|
        0 <= i < b.n() && 0 <= x < (#[trigger] b.rec(i)).kids@.len() implies {
        let en = #[trigger] b.rec(i).kids@[x];
        &&& i < en.1 < b.n()
        &&& b.rec(en.1 as int).live
        &&& b.rec(en.1 as int).parent == Option::Some(i as usize)
        &&& b.rec(en.1 as int).key@ == en.0@
    } by {
        if i == p {
            let en = rk[x];
            assert(en == if x < j { pk[x] } else { pk[x + 1] });
            assert(en.1 as int != id);
        } else {
            assert(b.rec(i) == a.rec(i));
            let en = a.rec(i).kids@[x];
            if en.1 as int == id {
                assert(a.rec(id).parent == Option::Some(i as usize));
                assert(i == p);
            }
        }
    }
    // Key uniqueness of the remaining entries.
    assert forall|i: int, x1: int, x2: int|
        0 <= i < b.n() && 0 <= x1 < x2 < (#[trigger] b.rec(i)).kids@.len() implies (
    #[trigger] b.rec(i).kids@[x1]).0@ != (#[trigger] b.rec(i).kids@[x2]).0@ by {
        if i == p {
            assert(rk[x1] == if x1 < j { pk[x1] } else { pk[x1 + 1] });
            assert(rk[x2] == if x2 < j { pk[x2] } else { pk[x2 + 1] });
        } else {
            assert(b.rec(i) == a.rec(i));
        }
    }
    // Registration of every remaining live child.
    assert forall|c: int| 1 <= c < b.n() && (#[trigger] b.rec(c)).live implies {
        let q = b.parent_of(c);
        &&& b.rec(q).live
        &&& kids_lookup(b.rec(q).kids@, b.rec(c).key@) is Some
        &&& kids_lookup(b.rec(q).kids@, b.rec(c).key@)->0 as int == c
    } by {
        let q = a.parent_of(c);
        assert(c != id);
        assert(a.rec(c).live);
        if q == id {
            lemma_lookup_none_iff(a.rec(id).kids@, a.rec(c).key@);
            assert(false);
        }
        if q == p {
            let kc = a.rec(c).key@;
            if pk[j].0@ == kc {
                let ji = lemma_lookup_index(pk, kc);
                assert(pk[ji].1 as int == c);
                assert(pk[j].1 as int == id);
                if ji != j {
                    assert(pk[ji].0@ == pk[j].0@);
                    assert(false);
                } else {
                    assert(false);
                }
            }
            lemma_lookup_remove(pk, j, kc);
        }
    }
    // The release frame: lookups that missed keep missing.
    assert forall|x: int, k: KeyModel|
        0 <= x < a.n() && #[trigger] kids_lookup(a.rec(x).kids@, k) is None
        implies #[trigger] kids_lookup(b.rec(x).kids@, k) is None by {
        if x == p {
            lemma_lookup_none_iff(pk, k);
            lemma_lookup_none_iff(rk, k);
        } else {
            assert(b.rec(x).kids@ == a.rec(x).kids@);
        }
    }
}

/// The release frame composes, and facts established at the middle state
/// (a dead slot, a missing key) survive the second step.
proof fn lemma_release_compose(
    a: FocusTree,
    m: FocusTree,
    b: FocusTree,
    id: int,
    p: int,
    k: KeyModel,
)
    requires
        release_frame(a, m),
        release_frame(m, b),
        0 <= id < m.n(),
        !m.is_live(id),
        0 <= p < m.n(),
        kids_lookup(m.rec(p).kids@, k) is None,
    ensures
        release_frame(a, b),
        !b.is_live(id),
        kids_lookup(b.rec(p).kids@, k) is None,
{
    assert forall|i: int, k2: KeyModel|
        0 <= i < a.n() && #[trigger] kids_lookup(a.rec(i).kids@, k2) is None
        implies #[trigger] kids_lookup(b.rec(i).kids@, k2) is None by {
        assert(kids_lookup(m.rec(i).kids@, k2) is None);
    }
    assert(kids_lookup(b.rec(p).kids@, k) is None);
    if b.is_live(id) {
        assert(m.is_live(id));
    }
}

/// Interning a fresh child slot keeps the arena well formed and enters the
/// new slot into the parent's table.
proof fn lemma_focus_intern_wf(a: FocusTree, b: FocusTree, sid: usize, gnew: FocusRec, rid: usize)
    requires
        a.wf(),
        a.is_live(sid as int),
        rid as int == a.n(),
        gnew.parent == Option::Some(sid),
        !(gnew.key@ is AtRoot),
        gnew.kids@.len() == 0,
        gnew.refs == 1,
        gnew.live,
        kids_lookup(a.rec(sid as int).kids@, gnew.key@) is None,
        b.n() == a.n() + 1,
        b.rec(rid as int) == gnew,
        b.rec(sid as int).kids@ == a.rec(sid as int).kids@.push((gnew.key, rid)),
        b.rec(sid as int).parent == a.rec(sid as int).parent,
        b.rec(sid as int).key == a.rec(sid as int).key,
        b.rec(sid as int).live == a.rec(sid as int).live,
        b.rec(sid as int).refs >= a.rec(sid as int).refs,
        forall|i: int| 0 <= i < a.n() && i != sid as int ==> #[trigger] b.rec(i) == a.rec(i),
    ensures
        b.wf(),
        kids_lookup(b.rec(sid as int).kids@, gnew.key@) == Option::Some(rid),
        b.path_of(rid as int) == b.path_of(sid as int).push(gnew.key@),
        b.is_live(rid as int),
{
    let sid = sid as int;
    let rid_i = rid as int;
    let pk = a.rec(sid).kids@;
    let e = (gnew.key, rid);
    lemma_lookup_none_iff(pk, gnew.key@);
    lemma_lookup_push(pk, e, gnew.key@);
    assert(b.rec(sid).kids@ == pk.push(e));
    assert forall|i: int| 1 <= i < b.n() && (#[trigger] b.rec(i)).live implies b.rec(i).refs
        >= 1 by {
        if i != sid && i != rid_i {
            assert(b.rec(i) == a.rec(i));
        }
    }
    // Soundness of every child-table entry in the new arena.
    assert forall|i: int, j: int|
        0 <= i < b.n() && 0 <= j < (#[trigger] b.rec(i)).kids@.len() implies {
        let en = #[trigger] b.rec(i).kids@[j];
        &&& i < en.1 < b.n()
        &&& b.rec(en.1 as int).live
        &&& b.rec(en.1 as int).parent == Option::Some(i as usize)
        &&& b.rec(en.1 as int).key@ == en.0@
    } by {
        if i == sid && j == pk.len() {
            assert(b.rec(i).kids@[j] == e);
        } else if i == sid {
            assert(b.rec(i).kids@[j] == pk[j]);
        } else if i != rid_i {
            assert(b.rec(i) == a.rec(i));
        }
    }
    // Key uniqueness within each table.
    assert forall|i: int, j1: int, j2: int|
        0 <= i < b.n() && 0 <= j1 < j2 < (#[trigger] b.rec(i)).kids@.len() implies (
    #[trigger] b.rec(i).kids@[j1]).0@ != (#[trigger] b.rec(i).kids@[j2]).0@ by {
        if i == sid {
            if j2 == pk.len() {
                assert(b.rec(i).kids@[j1] == pk[j1]);
                assert(b.rec(i).kids@[j2] == e);
            } else {
                assert(b.rec(i).kids@[j1] == pk[j1]);
                assert(b.rec(i).kids@[j2] == pk[j2]);
            }
        } else if i != rid_i {
            assert(b.rec(i) == a.rec(i));
        }
    }
    // Registration of every live child.
    assert forall|c: int| 1 <= c < b.n() && (#[trigger] b.rec(c)).live implies {
        let q = b.parent_of(c);
        &&& b.rec(q).live
        &&& kids_lookup(b.rec(q).kids@, b.rec(c).key@) is Some
        &&& kids_lookup(b.rec(q).kids@, b.rec(c).key@)->0 as int == c
    } by {
        if c == rid_i {
        } else {
            let q = a.parent_of(c);
            assert(a.rec(c).live);
            if q == sid {
                lemma_lookup_push(pk, e, a.rec(c).key@);
            }
        }
    }
    assert(b.path_of(rid_i) == b.path_of(sid).push(gnew.key@));
}

/// A restartable walk from a focus up through its ancestors to the root.
pub struct AncestorIter {
    pub cur: Option<usize>,
}

impl Focus {
    /// Walk from this focus (inclusive) up to the root (inclusive).
    pub fn ancestors(&self, t: &FocusTree) -> (r: AncestorIter)
        requires
            (self.id as int) < t.n(),
        ensures
            r.cur == Option::Some(self.id),
    {
        AncestorIter { cur: Option::Some(self.id) }
    }

    /// A counted handle on the parent focus, or nothing at the root.
    pub fn get_parent(&self, t: &mut FocusTree) -> (r: Option<Focus>)
        requires
            old(t).wf(),
            (self.id as int) < old(t).n(),
        ensures
            final(t).wf(),
            r is Some <==> self.id != 0,
            self.id == 0 ==> *final(t) == *old(t),
            self.id != 0 ==> r->0.id as int == old(t).parent_of(self.id as int) && final(t).recs@
                == old(t).recs@.update(
                old(t).parent_of(self.id as int),
                FocusRec {
                    refs: bump(old(t).rec(old(t).parent_of(self.id as int)).refs),
                    ..old(t).rec(old(t).parent_of(self.id as int))
                },
            ),
    {
        match t.recs[self.id].parent {
            Option::None => Option::None,
            Option::Some(p) => {
                let h = Focus { id: p };
                let r = h.dup(t);
                Option::Some(r)
            },
        }
    }

    /// A counted handle on the root of this focus's tree.
    pub fn get_root(&self, t: &mut FocusTree) -> (r: Focus)
        requires
            old(t).wf(),
        ensures
            final(t).wf(),
            r.id == 0,
            same_shape(*old(t), *final(t)),
    {
        t.root()
    }

    /// The access keys of the live children of this focus.
    pub fn get_direction_keys(&self, t: &FocusTree) -> (r: Vec<AccessKey>)
        requires
            (self.id as int) < t.n(),
        ensures
            r@.len() == t.rec(self.id as int).kids@.len(),
            forall|j: int|
                0 <= j < r@.len() ==> r@[j] == (#[trigger] t.rec(self.id as int).kids@[j]).0,
    {
        let ghost kids = t.rec(self.id as int).kids@;
        let kn = t.recs[self.id].kids.len();
        let mut r: Vec<AccessKey> = Vec::new();
        let mut j: usize = 0;
        while j < kn
            invariant
                (self.id as int) < t.n(),
                kids == t.rec(self.id as int).kids@,
                kn == kids.len(),
                j <= kn,
                r@.len() == j,
                forall|x: int| 0 <= x < j ==> r@[x] == (#[trigger] kids[x]).0,
            decreases kn - j,
        {
            r.push(t.recs[self.id].kids[j].0.duplicate());
            j += 1;
        }
        r
    }

    /// Counted handles on the live children of this focus.
    pub fn get_directions(&self, t: &mut FocusTree) -> (r: Vec<Focus>)
        requires
            old(t).wf(),
            (self.id as int) < old(t).n(),
        ensures
            final(t).wf(),
            same_shape(*old(t), *final(t)),
            r@.len() == old(t).rec(self.id as int).kids@.len(),
            forall|j: int|
                0 <= j < r@.len() ==> r@[j].id == (#[trigger] old(t).rec(
                    self.id as int,
                ).kids@[j]).1,
    {
        let ghost kids = old(t).rec(self.id as int).kids@;
        let kn = t.recs[self.id].kids.len();
        let mut r: Vec<Focus> = Vec::new();
        let mut j: usize = 0;
        while j < kn
            invariant
                t.wf(),
                same_shape(*old(t), *t),
                (self.id as int) < t.n(),
                kids == old(t).rec(self.id as int).kids@,
                kids == t.rec(self.id as int).kids@,
                kn == kids.len(),
                j <= kn,
                r@.len() == j,
                forall|x: int| 0 <= x < j ==> r@[x].id == (#[trigger] kids[x]).1,
            decreases kn - j,
        {
            let c = t.recs[self.id].kids[j].1;
            let h = Focus { id: c };
            let hc = h.dup(t);
            r.push(hc);
            proof {
                assert forall|i: int|
                    0 <= i < old(t).n() implies (#[trigger] t.rec(i)).parent == old(t).rec(
                    i,
                ).parent && t.rec(i).key@ == old(t).rec(i).key@ && t.rec(i).kids@ == old(t).rec(
                    i,
                ).kids@ && t.rec(i).live == old(t).rec(i).live by {}
            }
            j += 1;
        }
        r
    }
}

impl AncestorIter {
    /// The next focus on the walk, as a counted handle; nothing after the
    /// root has been yielded.
    pub fn next(&mut self, t: &mut FocusTree) -> (r: Option<Focus>)
        requires
            old(t).wf(),
            match old(self).cur {
                Option::Some(i) => (i as int) < old(t).n(),
                Option::None => true,
            },
        ensures
            final(t).wf(),
            same_shape(*old(t), *final(t)),
            match old(self).cur {
                Option::Some(i) => r is Some && r->0.id == i && final(self).cur == old(t).rec(
                    i as int,
                ).parent,
                Option::None => r is None && *final(t) == *old(t) && final(self).cur is None,
            },
    {
        match self.cur {
            Option::None => Option::None,
            Option::Some(i) => {
                self.cur = t.recs[i].parent;
                let h = Focus { id: i };
                let r = h.dup(t);
                Option::Some(r)
            },
        }
    }
}

} // verus!
