//! The value model: immutable tagged values.  Containers do not nest values
//! directly; they hold the ids of their child nodes in the domain's node
//! store, so a node's identity is its id, and replacing a child never touches
//! any other node.
use vstd::prelude::*;

use crate::access_key::CircularZeroIndex;
use crate::persist::{
    empty_name_map,
    pmap_contains,
    pmap_get,
    pmap_len,
    pmap_new,
    pmap_update,
    pmap_without,
    pvec_get,
    pvec_insert,
    pvec_len,
    pvec_new,
    pvec_push,
    pvec_remove,
    pvec_update,
    pmap_model,
    pvec_model,
};

verus! {

/// An ordered, persistent sequence of child-node ids.
pub struct ListValue {
    pub vec: im::Vector<usize>,
}

/// A persistent name-keyed map of child-node ids.
pub struct MapValue {
    pub map: im::HashMap<String, usize>,
}

/// One immutable node value.  A float is carried as its IEEE-754 bit pattern,
/// so that the value model stays exact.
pub enum NodeValue {
    Nil,
    Bool(bool),
    Integer(i64),
    Float(u64),
    Text(String),
    List(ListValue),
    Dict(MapValue),
}

/// Mathematical counterpart of `NodeValue`.
pub enum NodeModel {
    Nil,
    Bool(bool),
    Integer(i64),
    Float(u64),
    Text(Seq<char>),
    List(Seq<usize>),
    Dict(Map<Seq<char>, usize>),
}

impl View for ListValue {
    type V = Seq<usize>;

    open spec fn view(&self) -> Seq<usize> {
        pvec_model(self.vec)
    }
}

impl View for MapValue {
    type V = Map<Seq<char>, usize>;

    open spec fn view(&self) -> Map<Seq<char>, usize> {
        pmap_model(self.map)
    }
}

impl View for NodeValue {
    type V = NodeModel;

    open spec fn view(&self) -> NodeModel {
        match self {
            NodeValue::Nil => NodeModel::Nil,
            NodeValue::Bool(b) => NodeModel::Bool(*b),
            NodeValue::Integer(i) => NodeModel::Integer(*i),
            NodeValue::Float(bits) => NodeModel::Float(*bits),
            NodeValue::Text(s) => NodeModel::Text(s@),
            NodeValue::List(l) => NodeModel::List(l@),
            NodeValue::Dict(m) => NodeModel::Dict(m@),
        }
    }
}

/// Normalization of a circular zero-based index: negative values count from
/// the end, -1 meaning the last element.
pub open spec fn norm_index(len: int, i: int) -> int {
    if i >= 0 {
        i
    } else {
        len + i
    }
}

/// The normalized position of `i` in a collection of length `len`, when it is
/// in range.
pub fn normalize_index(len: usize, i: CircularZeroIndex) -> (r: Option<usize>)
    ensures
        r == if 0 <= norm_index(len as int, i as int) < len as int {
            Option::Some(norm_index(len as int, i as int) as usize)
        } else {
            Option::<usize>::None
        },
{
    if i >= 0 {
        if (i as usize) < len {
            Option::Some(i as usize)
        } else {
            Option::None
        }
    } else {
        let back: usize = ((-(i + 1)) as usize) + 1;
        if back <= len {
            Option::Some(len - back)
        } else {
            Option::None
        }
    }
}

impl ListValue {
    /// An empty list.
    pub fn new() -> (r: ListValue)
        ensures
            r@ == Seq::<usize>::empty(),
    {
        ListValue { vec: pvec_new() }
    }

    pub fn len(&self) -> (r: usize)
        ensures
            r == self@.len(),
    {
        pvec_len(&self.vec)
    }

    /// The child id at a circular index; nothing when out of range.
    pub fn get_item(&self, index: CircularZeroIndex) -> (r: Option<usize>)
        ensures
            r == if 0 <= norm_index(self@.len() as int, index as int) < self@.len() {
                Option::Some(self@[norm_index(self@.len() as int, index as int)])
            } else {
                Option::<usize>::None
            },
    {
        let n = pvec_len(&self.vec);
        match normalize_index(n, index) {
            Option::Some(p) => pvec_get(&self.vec, p),
            Option::None => Option::None,
        }
    }

    /// A new list with the element at a circular index replaced, along with
    /// the id it replaced; nothing when the index is out of range.  The
    /// receiver is never changed.
    pub fn set_item(&self, index: CircularZeroIndex, value: usize) -> (r: Option<(
        ListValue,
        usize,
    )>)
        ensures
            match r {
                Option::Some(p) => {
                    let nx = norm_index(self@.len() as int, index as int);
                    &&& 0 <= nx < self@.len()
                    &&& p.0@ == self@.update(nx, value)
                    &&& p.1 == self@[nx]
                },
                Option::None => !(0 <= norm_index(self@.len() as int, index as int)
                    < self@.len()),
            },
    {
        let n = pvec_len(&self.vec);
        match normalize_index(n, index) {
            Option::Some(p) => {
                let old_id = match pvec_get(&self.vec, p) {
                    Option::Some(x) => x,
                    Option::None => 0,
                };
                Option::Some((ListValue { vec: pvec_update(&self.vec, p, value) }, old_id))
            },
            Option::None => Option::None,
        }
    }

    /// A new list with the id appended; the receiver is never changed.
    pub fn push(&self, value: usize) -> (r: ListValue)
        ensures
            r@ == self@.push(value),
    {
        ListValue { vec: pvec_push(&self.vec, value) }
    }

    /// A new list with the id inserted before a circular index (normalized
    /// position up to and including the length); nothing when out of range.
    pub fn insert(&self, index: CircularZeroIndex, value: usize) -> (r: Option<ListValue>)
        ensures
            match r {
                Option::Some(l) => {
                    let nx = norm_index(self@.len() as int, index as int);
                    &&& 0 <= nx <= self@.len()
                    &&& l@ == self@.insert(nx, value)
                },
                Option::None => !(0 <= norm_index(self@.len() as int, index as int)
                    <= self@.len()),
            },
    {
        let n = pvec_len(&self.vec);
        if index >= 0 {
            if (index as usize) <= n {
                Option::Some(ListValue { vec: pvec_insert(&self.vec, index as usize, value) })
            } else {
                Option::None
            }
        } else {
            let back: usize = ((-(index + 1)) as usize) + 1;
            if back <= n {
                Option::Some(ListValue { vec: pvec_insert(&self.vec, n - back, value) })
            } else {
                Option::None
            }
        }
    }

    /// A new list without the element at a circular index; nothing when out
    /// of range.  The receiver is never changed.
    pub fn remove(&self, index: CircularZeroIndex) -> (r: Option<ListValue>)
        ensures
            match r {
                Option::Some(l) => {
                    let nx = norm_index(self@.len() as int, index as int);
                    &&& 0 <= nx < self@.len()
                    &&& l@ == self@.remove(nx)
                },
                Option::None => !(0 <= norm_index(self@.len() as int, index as int)
                    < self@.len()),
            },
    {
        let n = pvec_len(&self.vec);
        match normalize_index(n, index) {
            Option::Some(p) => Option::Some(ListValue { vec: pvec_remove(&self.vec, p) }),
            Option::None => Option::None,
        }
    }
}

impl MapValue {
    /// An empty map.
    pub fn new() -> (r: MapValue)
        ensures
            r@ == empty_name_map(),
            r@.dom().finite(),
    {
        MapValue { map: pmap_new() }
    }

    /// A new map with the entry set, along with the id it replaced, if the
    /// key was present.  The receiver is never changed.
    pub fn set_item(&self, key: String, value: usize) -> (r: (MapValue, Option<usize>))
        ensures
            r.0@ == self@.insert(key@, value),
            r.0@.dom().finite(),
            r.1 == if self@.dom().contains(key@) {
                Option::Some(self@[key@])
            } else {
                Option::<usize>::None
            },
    {
        let old_id = pmap_get(&self.map, &key);
        (MapValue { map: pmap_update(&self.map, key, value) }, old_id)
    }

    /// The child id under a key, when present.
    pub fn get_item(&self, key: &String) -> (r: Option<usize>)
        ensures
            r == if self@.dom().contains(key@) {
                Option::Some(self@[key@])
            } else {
                Option::<usize>::None
            },
    {
        pmap_get(&self.map, key)
    }

    /// A new map absent the key; the receiver is never changed.
    pub fn remove(&self, key: &String) -> (r: MapValue)
        ensures
            r@ == self@.remove(key@),
            r@.dom().finite(),
    {
        MapValue { map: pmap_without(&self.map, key) }
    }

    /// A new, empty map.
    pub fn clear(&self) -> (r: MapValue)
        ensures
            r@ == empty_name_map(),
            r@.dom().finite(),
    {
        MapValue { map: pmap_new() }
    }

    pub fn len(&self) -> (r: usize)
        ensures
            r == self@.len(),
    {
        pmap_len(&self.map)
    }

    pub fn contains_key(&self, key: &String) -> (r: bool)
        ensures
            r == self@.dom().contains(key@),
    {
        pmap_contains(&self.map, key)
    }
}

/// Circular indexing reaches the same elements from both ends: in a
/// collection of length `n`, index `-1` names the same position as `n - 1`,
/// and `-n` the same position as `0`.  `get_item`, `set_item` and `remove`
/// all read positions through `norm_index`, so the law carries to them.
pub proof fn lemma_negative_index(n: int)
    requires
        n >= 1,
    ensures
        norm_index(n, -1) == norm_index(n, n - 1),
        norm_index(n, -n) == norm_index(n, 0),
{
}

/// Every child id mentioned by a node value lies below the bound, and a map
/// node holds finitely many entries.
pub open spec fn node_ok(m: NodeModel, bound: int) -> bool {
    match m {
        NodeModel::List(s) => forall|x: int| 0 <= x < s.len() ==> (#[trigger] s[x]) < bound,
        NodeModel::Dict(mp) => mp.dom().finite() && forall|k: Seq<char>|
            mp.dom().contains(k) ==> #[trigger] mp[k] < bound,
        _ => true,
    }
}

impl NodeValue {
    pub fn is_none(&self) -> (r: bool)
        ensures
            r == (self@ is Nil),
    {
        match self {
            NodeValue::Nil => true,
            _ => false,
        }
    }

    pub fn is_integer(&self) -> (r: bool)
        ensures
            r == (self@ is Integer),
    {
        match self {
            NodeValue::Integer(_) => true,
            _ => false,
        }
    }
}

} // verus!
