//! `bevy::platform::collections::HashSet` and `HashMap`, as far as the
//! spatial queries use them. Nothing in this file is proved: each contract
//! restates what the documentation of the method it names promises. Both
//! collections forward every call to the `hashbrown` collection they wrap.

use crate::rect2d::Rect2D;
use crate::vector::EntityRef;
use bevy::platform::collections::{HashMap, HashSet};
use bevy::platform::hash::FixedHasher;
use vstd::prelude::*;

verus! {

/// `bevy::platform::collections::HashSet`, opaque to the verifier.
#[verifier::external_type_specification]
#[verifier::external_body]
#[verifier::reject_recursive_types(T)]
#[verifier::reject_recursive_types(S)]
pub struct ExHashSet<T, S>(HashSet<T, S>);

/// `bevy::platform::collections::HashMap`, opaque to the verifier.
#[verifier::external_type_specification]
#[verifier::external_body]
#[verifier::reject_recursive_types(K)]
#[verifier::reject_recursive_types(V)]
#[verifier::reject_recursive_types(S)]
pub struct ExHashMap<K, V, S>(HashMap<K, V, S>);

/// `bevy::platform::hash::FixedHasher`, the hasher of both collections,
/// opaque to the verifier.
#[verifier::external_type_specification]
#[verifier::external_body]
pub struct ExFixedHasher(FixedHasher);

/// The node indices that a set holds.
pub uninterp spec fn node_set_view(s: HashSet<usize>) -> Set<usize>;

/// `HashSet::new`: a set that holds nothing.
#[verifier::external_body]
pub(crate) fn node_set_new() -> (s: HashSet<usize>)
    ensures
        node_set_view(s) == Set::<usize>::empty(),
{
    HashSet::new()
}

/// `HashSet::insert`: afterwards the set holds `node` besides what it held
/// before; the result tells whether `node` was new to it.
#[verifier::external_body]
pub(crate) fn node_set_insert(s: &mut HashSet<usize>, node: usize) -> (fresh: bool)
    ensures
        node_set_view(*final(s)) == node_set_view(*old(s)).insert(node),
        fresh == !node_set_view(*old(s)).contains(node),
{
    s.insert(node)
}

/// `HashSet::iter`: every element of the set exactly once, in an order that
/// the set does not promise.
#[verifier::external_body]
pub(crate) fn node_set_items(s: &HashSet<usize>) -> (items: Vec<usize>)
    ensures
        items@.no_duplicates(),
        items@.to_set() == node_set_view(*s),
{
    s.iter().copied().collect()
}

/// An entity that occupies a node, with its bounding rectangle.
pub type Occupant = (EntityRef, Rect2D);

/// The buckets of a spatial index, keyed by node.
pub type SpatialIndex = HashMap<usize, Vec<Occupant>>;

/// The buckets that a spatial index holds: for each node that has one, its
/// occupants in the order in which they were added.
pub uninterp spec fn spatial_index_view(m: SpatialIndex) -> Map<usize, Seq<Occupant>>;

/// `HashMap::new`: a map that holds nothing.
#[verifier::external_body]
pub(crate) fn spatial_index_new() -> (index: SpatialIndex)
    ensures
        spatial_index_view(index).dom() == Set::<usize>::empty(),
{
    HashMap::new()
}

/// `HashMap::get`: the bucket stored under `node`, if there is one.
#[verifier::external_body]
pub(crate) fn spatial_index_get(m: &SpatialIndex, node: usize) -> (bucket: Option<&Vec<Occupant>>)
    ensures
        bucket is Some == spatial_index_view(*m).contains_key(node),
        bucket matches Some(b) ==> b@ == spatial_index_view(*m)[node],
{
    m.get(&node)
}

/// `HashMap::get_mut`: the bucket stored under `node`, if there is one, to
/// be changed in place. Whatever the caller leaves in it is what the map
/// holds under `node` afterwards; no other bucket changes.
#[verifier::external_body]
pub(crate) fn spatial_index_get_mut(
    m: &mut SpatialIndex,
    node: usize,
) -> (bucket: Option<&mut Vec<Occupant>>)
    ensures
        bucket is Some == spatial_index_view(*old(m)).contains_key(node),
        match bucket {
            Some(b) => b@ == spatial_index_view(*old(m))[node] && spatial_index_view(*final(m))
                == spatial_index_view(*old(m)).insert(node, final(b)@),
            None => spatial_index_view(*final(m)) == spatial_index_view(*old(m)),
        },
{
    m.get_mut(&node)
}

/// `HashMap::insert`: afterwards the map holds `bucket` under `node`, in
/// place of what it held there before, and every other bucket as before.
#[verifier::external_body]
pub(crate) fn spatial_index_insert(m: &mut SpatialIndex, node: usize, bucket: Vec<Occupant>)
    ensures
        spatial_index_view(*final(m)) == spatial_index_view(*old(m)).insert(node, bucket@),
{
    m.insert(node, bucket);
}

} // verus!
