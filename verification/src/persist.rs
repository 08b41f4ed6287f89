//! The persistent containers backing list and map nodes.  They come from the
//! `im` crate: `im::Vector` and `im::HashMap` support clone-and-modify in
//! better than linear time, which is what gives edits their cheap structural
//! sharing.  Verus sees them through the two content models below and the
//! wrappers, whose contracts state what `im`'s documentation promises.
use vstd::prelude::*;

verus! {

#[verifier::external_type_specification]
#[verifier::external_body]
#[verifier::reject_recursive_types(A)]
pub struct ExImVector<A>(im::Vector<A>);

#[verifier::external_type_specification]
#[verifier::external_body]
#[verifier::reject_recursive_types(K)]
#[verifier::reject_recursive_types(V)]
#[verifier::reject_recursive_types(S)]
pub struct ExImHashMap<K, V, S>(im::HashMap<K, V, S>);

/// The elements held by a persistent vector of node ids, in order.
pub uninterp spec fn pvec_model(v: im::Vector<usize>) -> Seq<usize>;

/// The entries held by a persistent map from names to node ids.
pub uninterp spec fn pmap_model(m: im::HashMap<String, usize>) -> Map<Seq<char>, usize>;

/// Relies on im::Vector::new: the fresh vector is empty.
#[verifier::external_body]
pub(crate) fn pvec_new() -> (r: im::Vector<usize>)
    ensures
        pvec_model(r) == Seq::<usize>::empty(),
{
    im::Vector::new()
}

/// Relies on im::Vector::len: the number of elements.
#[verifier::external_body]
pub(crate) fn pvec_len(v: &im::Vector<usize>) -> (r: usize)
    ensures
        r == pvec_model(*v).len(),
{
    v.len()
}

/// Relies on im::Vector::get: the element at the index, when in range.
#[verifier::external_body]
pub(crate) fn pvec_get(v: &im::Vector<usize>, i: usize) -> (r: Option<usize>)
    ensures
        r == if (i as int) < pvec_model(*v).len() {
            Option::Some(pvec_model(*v)[i as int])
        } else {
            Option::<usize>::None
        },
{
    v.get(i).copied()
}

/// Relies on im::Vector::update: a new vector with the element at the index
/// replaced; the receiver is untouched.  `update` panics out of range, so the
/// index must be in range here.
#[verifier::external_body]
pub(crate) fn pvec_update(v: &im::Vector<usize>, i: usize, x: usize) -> (r: im::Vector<usize>)
    requires
        (i as int) < pvec_model(*v).len(),
    ensures
        pvec_model(r) == pvec_model(*v).update(i as int, x),
{
    v.update(i, x)
}

/// Relies on im::Vector::clone and im::Vector::push_back: a new vector with
/// the value appended.
#[verifier::external_body]
pub(crate) fn pvec_push(v: &im::Vector<usize>, x: usize) -> (r: im::Vector<usize>)
    ensures
        pvec_model(r) == pvec_model(*v).push(x),
{
    let mut r = v.clone();
    r.push_back(x);
    r
}

/// Relies on im::Vector::clone and im::Vector::insert: a new vector with the
/// value inserted before the index.  `insert` panics past the end, so the
/// index must be at most the length here.
#[verifier::external_body]
pub(crate) fn pvec_insert(v: &im::Vector<usize>, i: usize, x: usize) -> (r: im::Vector<usize>)
    requires
        (i as int) <= pvec_model(*v).len(),
    ensures
        pvec_model(r) == pvec_model(*v).insert(i as int, x),
{
    let mut r = v.clone();
    r.insert(i, x);
    r
}

/// Relies on im::Vector::clone and im::Vector::remove: a new vector without
/// the element at the index.  `remove` panics out of range, so the index must
/// be in range here.
#[verifier::external_body]
pub(crate) fn pvec_remove(v: &im::Vector<usize>, i: usize) -> (r: im::Vector<usize>)
    requires
        (i as int) < pvec_model(*v).len(),
    ensures
        pvec_model(r) == pvec_model(*v).remove(i as int),
{
    let mut r = v.clone();
    r.remove(i);
    r
}

/// The empty name-to-id map.
pub open spec fn empty_name_map() -> Map<Seq<char>, usize> {
    Map::empty()
}

/// Relies on im::HashMap::new: the fresh map is empty.
#[verifier::external_body]
pub(crate) fn pmap_new() -> (r: im::HashMap<String, usize>)
    ensures
        pmap_model(r) == empty_name_map(),
{
    im::HashMap::new()
}

/// Relies on im::HashMap::len: the number of entries.
#[verifier::external_body]
pub(crate) fn pmap_len(m: &im::HashMap<String, usize>) -> (r: usize)
    ensures
        r == pmap_model(*m).len(),
{
    m.len()
}

/// Relies on im::HashMap::get: the value under the key, when present.
#[verifier::external_body]
pub(crate) fn pmap_get(m: &im::HashMap<String, usize>, k: &String) -> (r: Option<usize>)
    ensures
        r == if pmap_model(*m).dom().contains(k@) {
            Option::Some(pmap_model(*m)[k@])
        } else {
            Option::<usize>::None
        },
{
    m.get(k).copied()
}

/// Relies on im::HashMap::contains_key.
#[verifier::external_body]
pub(crate) fn pmap_contains(m: &im::HashMap<String, usize>, k: &String) -> (r: bool)
    ensures
        r == pmap_model(*m).dom().contains(k@),
{
    m.contains_key(k)
}

/// Relies on im::HashMap::update: a new map with the entry inserted or
/// replaced; the receiver is untouched.
#[verifier::external_body]
pub(crate) fn pmap_update(m: &im::HashMap<String, usize>, k: String, x: usize) -> (r: im::HashMap<
    String,
    usize,
>)
    ensures
        pmap_model(r) == pmap_model(*m).insert(k@, x),
        pmap_model(r).dom().finite(),
{
    m.update(k, x)
}

/// Relies on im::HashMap::without: a new map absent the key; the receiver is
/// untouched.
#[verifier::external_body]
pub(crate) fn pmap_without(m: &im::HashMap<String, usize>, k: &String) -> (r: im::HashMap<
    String,
    usize,
>)
    ensures
        pmap_model(r) == pmap_model(*m).remove(k@),
        pmap_model(r).dom().finite(),
{
    m.without(k)
}

} // verus!
