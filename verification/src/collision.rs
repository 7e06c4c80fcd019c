use crate::aabb::AxisAlignedBoundingBox;
use crate::hash_collections::{
    node_set_items, spatial_index_get, spatial_index_get_mut, spatial_index_insert,
    spatial_index_new, spatial_index_view, Occupant, SpatialIndex,
};
use crate::rect2d::Rect2D;
use crate::static_quadtree::{lemma_node_count, StaticQuadTree, StaticQuadTreeNode};
use crate::vector::{EntityRef, Vector2};
use std::marker::PhantomData;
use vstd::prelude::*;

verus! {

/// Two entities, one of category `A` and one of category `B`, whose bounding
/// rectangles intersect.
#[derive(Debug)]
pub struct OnCollision<A, B> {
    pub entity_a: EntityRef,
    pub entity_b: EntityRef,
    pub marker: PhantomData<(A, B)>,
}

impl<A, B> OnCollision<A, B> {
    /// The two entities of the event.
    pub open spec fn pair(self) -> (EntityRef, EntityRef) {
        (self.entity_a, self.entity_b)
    }

    /// The event that `entity_a` and `entity_b` collide.
    pub fn new(entity_a: EntityRef, entity_b: EntityRef) -> (event: Self)
        ensures
            event.pair() == (entity_a, entity_b),
    {
        OnCollision { entity_a, entity_b, marker: PhantomData }
    }
}

/// An entity that takes part in collision detection: its identity, its
/// current position and its bounding box.
pub type Collider = (EntityRef, Vector2, AxisAlignedBoundingBox);

/// The bounding rectangle of a collider at its position.
pub open spec fn collider_rect(c: Collider) -> Rect2D {
    c.2.spec_as_rect(c.1)
}

/// The bounding rectangle of every collider has corners that an `i32` can
/// hold.
pub open spec fn colliders_placeable(colliders: Seq<Collider>) -> bool {
    forall|i: int| 0 <= i < colliders.len() ==> (#[trigger] colliders[i]).2.can_place(colliders[i].1)
}

/// The entity pairs of a sequence of events.
pub open spec fn event_pairs<A, B>(events: Seq<OnCollision<A, B>>) -> Seq<(EntityRef, EntityRef)> {
    Seq::new(events.len(), |k: int| events[k].pair())
}

/// The occupants of `node` among the first `n` colliders: those whose
/// bounding rectangle intersects the node's bounds, in the colliders' order.
pub open spec fn bucket_of(
    nodes: Seq<StaticQuadTreeNode>,
    colliders: Seq<Collider>,
    node: usize,
    n: int,
) -> Seq<Occupant>
    decreases n,
{
    if n <= 0 {
        Seq::empty()
    } else {
        let earlier = bucket_of(nodes, colliders, node, n - 1);
        let rect = collider_rect(colliders[n - 1]);
        if node < nodes.len() && nodes[node as int].bounds.intersects(rect) {
            earlier.push((colliders[n - 1].0, rect))
        } else {
            earlier
        }
    }
}

/// The buckets while the colliders are being entered: the first `n` colliders
/// are in every bucket they belong to, and collider `n` is in the buckets of
/// the nodes in `visited`. A node without occupants has no bucket.
pub open spec fn buckets_during(
    nodes: Seq<StaticQuadTreeNode>,
    colliders: Seq<Collider>,
    n: int,
    visited: Set<usize>,
) -> Map<usize, Seq<Occupant>> {
    Map::new(
        |node: usize|
            bucket_of(nodes, colliders, node, if visited.contains(node) { n + 1 } else { n }).len()
                > 0,
        |node: usize|
            bucket_of(nodes, colliders, node, if visited.contains(node) { n + 1 } else { n }),
    )
}

/// The buckets of a spatial index over `colliders`: each collider is in the
/// bucket of every node that its bounding rectangle intersects.
pub open spec fn spatial_buckets(
    nodes: Seq<StaticQuadTreeNode>,
    colliders: Seq<Collider>,
) -> Map<usize, Seq<Occupant>> {
    buckets_during(nodes, colliders, colliders.len() as int, Set::empty())
}

/// The bucket that `buckets` holds for `node`; none counts as an empty one.
pub open spec fn bucket_at(buckets: Map<usize, Seq<Occupant>>, node: usize) -> Seq<Occupant> {
    if buckets.contains_key(node) {
        buckets[node]
    } else {
        Seq::empty()
    }
}

/// The collisions of an entity with the first `n` occupants of a bucket: one
/// pair for each occupant that is another entity and whose rectangle
/// intersects `rect_a`, in the bucket's order.
pub open spec fn bucket_events(
    entity_a: EntityRef,
    rect_a: Rect2D,
    bucket: Seq<Occupant>,
    n: int,
) -> Seq<(EntityRef, EntityRef)>
    decreases n,
{
    if n <= 0 {
        Seq::empty()
    } else {
        let earlier = bucket_events(entity_a, rect_a, bucket, n - 1);
        let (entity_b, rect_b) = bucket[n - 1];
        if entity_a != entity_b && rect_a.intersects(rect_b) {
            earlier.push((entity_a, entity_b))
        } else {
            earlier
        }
    }
}

/// The collisions of an entity found in the buckets of the first `n` nodes of
/// `walk`, node after node. A pair is reported once for each node on the walk
/// in whose bucket the other entity is.
pub open spec fn walk_events(
    entity_a: EntityRef,
    rect_a: Rect2D,
    buckets: Map<usize, Seq<Occupant>>,
    walk: Seq<usize>,
    n: int,
) -> Seq<(EntityRef, EntityRef)>
    decreases n,
{
    if n <= 0 {
        Seq::empty()
    } else {
        let bucket = bucket_at(buckets, walk[n - 1]);
        walk_events(entity_a, rect_a, buckets, walk, n - 1) + bucket_events(
            entity_a,
            rect_a,
            bucket,
            bucket.len() as int,
        )
    }
}

/// The collisions of the first `n` colliders of `colliders_a` with the
/// occupants of `buckets`, where collider `i` visits the nodes of `walks[i]`
/// in order.
pub open spec fn all_events(
    colliders_a: Seq<Collider>,
    buckets: Map<usize, Seq<Occupant>>,
    walks: Seq<Seq<usize>>,
    n: int,
) -> Seq<(EntityRef, EntityRef)>
    decreases n,
{
    if n <= 0 {
        Seq::empty()
    } else {
        all_events(colliders_a, buckets, walks, n - 1) + walk_events(
            colliders_a[n - 1].0,
            collider_rect(colliders_a[n - 1]),
            buckets,
            walks[n - 1],
            walks[n - 1].len() as int,
        )
    }
}

/// `walk` names every element of `nodes` exactly once.
pub open spec fn is_walk_of(walk: Seq<usize>, nodes: Set<usize>) -> bool {
    walk.no_duplicates() && walk.to_set() == nodes
}

/// `walks` holds, for each collider, a walk of the nodes that its bounding
/// rectangle intersects.
pub open spec fn walks_cover(
    quad_tree: &StaticQuadTree,
    colliders: Seq<Collider>,
    walks: Seq<Seq<usize>>,
) -> bool {
    &&& walks.len() == colliders.len()
    &&& forall|i: int|
        0 <= i < colliders.len() ==> is_walk_of(
            #[trigger] walks[i],
            quad_tree.spec_intersecting_nodes(collider_rect(colliders[i])),
        )
}

/// What `check_collisions` may return: the collisions found when every
/// collider of `colliders_a` visits the nodes that it intersects, in the
/// order of `walks`, against the spatial index over `colliders_b`.
pub open spec fn collisions_by_walks(
    quad_tree: &StaticQuadTree,
    colliders_a: Seq<Collider>,
    colliders_b: Seq<Collider>,
    walks: Seq<Seq<usize>>,
    pairs: Seq<(EntityRef, EntityRef)>,
) -> bool {
    &&& walks_cover(quad_tree, colliders_a, walks)
    &&& pairs == all_events(
        colliders_a,
        spatial_buckets(quad_tree.nodes@, colliders_b),
        walks,
        colliders_a.len() as int,
    )
}

/// `pair` names a collider of `colliders_a` and one of `colliders_b` that
/// are different entities and whose bounding rectangles intersect.
pub open spec fn is_collision(
    colliders_a: Seq<Collider>,
    colliders_b: Seq<Collider>,
    pair: (EntityRef, EntityRef),
) -> bool {
    exists|i: int, j: int|
        0 <= i < colliders_a.len() && 0 <= j < colliders_b.len() && collide(
            #[trigger] colliders_a[i],
            #[trigger] colliders_b[j],
        ) && pair == (colliders_a[i].0, colliders_b[j].0)
}

/// The two colliders are different entities and their bounding rectangles
/// intersect.
pub open spec fn collide(a: Collider, b: Collider) -> bool {
    a.0 != b.0 && collider_rect(a).intersects(collider_rect(b))
}

/// Every occupant of a bucket is one of the colliders, and its rectangle
/// intersects the bounds of the bucket's node.
proof fn lemma_bucket_member(
    nodes: Seq<StaticQuadTreeNode>,
    colliders: Seq<Collider>,
    node: usize,
    n: int,
    m: int,
)
    requires
        0 <= n <= colliders.len(),
        0 <= m < bucket_of(nodes, colliders, node, n).len(),
    ensures
        exists|j: int|
            0 <= j < n && bucket_of(nodes, colliders, node, n)[m] == (
                (#[trigger] colliders[j]).0,
                collider_rect(colliders[j]),
            ),
    decreases n,
{
    let earlier = bucket_of(nodes, colliders, node, n - 1);
    if m < earlier.len() {
        lemma_bucket_member(nodes, colliders, node, n - 1, m);
        let j = choose|j: int|
            0 <= j < n - 1 && earlier[m] == ((#[trigger] colliders[j]).0, collider_rect(colliders[j]));
        assert(bucket_of(nodes, colliders, node, n)[m] == (
            colliders[j].0,
            collider_rect(colliders[j]),
        ));
    } else {
        assert(bucket_of(nodes, colliders, node, n)[m] == (
            colliders[n - 1].0,
            collider_rect(colliders[n - 1]),
        ));
    }
}

/// A collider whose rectangle intersects the bounds of a node is an occupant
/// of the node's bucket.
proof fn lemma_bucket_has(
    nodes: Seq<StaticQuadTreeNode>,
    colliders: Seq<Collider>,
    node: usize,
    n: int,
    j: int,
)
    requires
        0 <= j < n <= colliders.len(),
        node < nodes.len(),
        nodes[node as int].bounds.intersects(collider_rect(colliders[j])),
    ensures
        bucket_of(nodes, colliders, node, n).contains((colliders[j].0, collider_rect(colliders[j]))),
    decreases n,
{
    let now = bucket_of(nodes, colliders, node, n);
    let occupant = (colliders[j].0, collider_rect(colliders[j]));
    if j < n - 1 {
        lemma_bucket_has(nodes, colliders, node, n - 1, j);
        let earlier = bucket_of(nodes, colliders, node, n - 1);
        let m = choose|m: int| 0 <= m < earlier.len() && earlier[m] == occupant;
        assert(now[m] == occupant);
    } else {
        assert(now[now.len() - 1] == occupant);
    }
}

/// Every collision found in a bucket pairs the entity with an occupant that
/// is another entity and whose rectangle intersects `rect_a`.
proof fn lemma_bucket_events_member(
    entity_a: EntityRef,
    rect_a: Rect2D,
    bucket: Seq<Occupant>,
    n: int,
    m: int,
)
    requires
        0 <= n <= bucket.len(),
        0 <= m < bucket_events(entity_a, rect_a, bucket, n).len(),
    ensures
        exists|t: int|
            0 <= t < n && bucket_events(entity_a, rect_a, bucket, n)[m] == (
                entity_a,
                (#[trigger] bucket[t]).0,
            ) && entity_a != bucket[t].0 && rect_a.intersects(bucket[t].1),
    decreases n,
{
    let earlier = bucket_events(entity_a, rect_a, bucket, n - 1);
    if m < earlier.len() {
        lemma_bucket_events_member(entity_a, rect_a, bucket, n - 1, m);
        let t = choose|t: int|
            0 <= t < n - 1 && earlier[m] == (entity_a, (#[trigger] bucket[t]).0) && entity_a
                != bucket[t].0 && rect_a.intersects(bucket[t].1);
        assert(bucket_events(entity_a, rect_a, bucket, n)[m] == (entity_a, bucket[t].0));
    } else {
        assert(bucket_events(entity_a, rect_a, bucket, n)[m] == (entity_a, bucket[n - 1].0));
    }
}

/// An occupant that is another entity and whose rectangle intersects
/// `rect_a` is reported.
proof fn lemma_bucket_events_has(
    entity_a: EntityRef,
    rect_a: Rect2D,
    bucket: Seq<Occupant>,
    n: int,
    t: int,
)
    requires
        0 <= t < n <= bucket.len(),
        entity_a != bucket[t].0,
        rect_a.intersects(bucket[t].1),
    ensures
        bucket_events(entity_a, rect_a, bucket, n).contains((entity_a, bucket[t].0)),
    decreases n,
{
    let now = bucket_events(entity_a, rect_a, bucket, n);
    if t < n - 1 {
        lemma_bucket_events_has(entity_a, rect_a, bucket, n - 1, t);
        let earlier = bucket_events(entity_a, rect_a, bucket, n - 1);
        let m = choose|m: int| 0 <= m < earlier.len() && earlier[m] == (entity_a, bucket[t].0);
        assert(now[m] == (entity_a, bucket[t].0));
    } else {
        assert(now[now.len() - 1] == (entity_a, bucket[t].0));
    }
}

/// Every collision found along a walk was found in the bucket of one of its
/// nodes.
proof fn lemma_walk_events_member(
    entity_a: EntityRef,
    rect_a: Rect2D,
    buckets: Map<usize, Seq<Occupant>>,
    walk: Seq<usize>,
    n: int,
    m: int,
)
    requires
        0 <= n <= walk.len(),
        0 <= m < walk_events(entity_a, rect_a, buckets, walk, n).len(),
    ensures
        exists|w: int|
            0 <= w < n && bucket_events(
                entity_a,
                rect_a,
                bucket_at(buckets, #[trigger] walk[w]),
                bucket_at(buckets, walk[w]).len() as int,
            ).contains(walk_events(entity_a, rect_a, buckets, walk, n)[m]),
    decreases n,
{
    let earlier = walk_events(entity_a, rect_a, buckets, walk, n - 1);
    let bucket = bucket_at(buckets, walk[n - 1]);
    let here = bucket_events(entity_a, rect_a, bucket, bucket.len() as int);
    if m < earlier.len() {
        lemma_walk_events_member(entity_a, rect_a, buckets, walk, n - 1, m);
        let w = choose|w: int|
            0 <= w < n - 1 && bucket_events(
                entity_a,
                rect_a,
                bucket_at(buckets, #[trigger] walk[w]),
                bucket_at(buckets, walk[w]).len() as int,
            ).contains(earlier[m]);
        assert(0 <= w < n);
    } else {
        assert(here[m - earlier.len()] == walk_events(entity_a, rect_a, buckets, walk, n)[m]);
        assert(0 <= n - 1 < n);
    }
}

/// A collision found in the bucket of a node on the walk is reported.
proof fn lemma_walk_events_has(
    entity_a: EntityRef,
    rect_a: Rect2D,
    buckets: Map<usize, Seq<Occupant>>,
    walk: Seq<usize>,
    n: int,
    w: int,
    pair: (EntityRef, EntityRef),
)
    requires
        0 <= w < n <= walk.len(),
        bucket_events(
            entity_a,
            rect_a,
            bucket_at(buckets, walk[w]),
            bucket_at(buckets, walk[w]).len() as int,
        ).contains(pair),
    ensures
        walk_events(entity_a, rect_a, buckets, walk, n).contains(pair),
    decreases n,
{
    let now = walk_events(entity_a, rect_a, buckets, walk, n);
    let earlier = walk_events(entity_a, rect_a, buckets, walk, n - 1);
    if w < n - 1 {
        lemma_walk_events_has(entity_a, rect_a, buckets, walk, n - 1, w, pair);
        let m = choose|m: int| 0 <= m < earlier.len() && earlier[m] == pair;
        assert(now[m] == pair);
    } else {
        let bucket = bucket_at(buckets, walk[n - 1]);
        let here = bucket_events(entity_a, rect_a, bucket, bucket.len() as int);
        let m = choose|m: int| 0 <= m < here.len() && here[m] == pair;
        assert(now[earlier.len() + m] == pair);
    }
}

/// Every reported pair is a collision: a collider of the first category and
/// one of the second that are different entities and whose bounding
/// rectangles intersect.
pub proof fn lemma_collisions_sound(
    nodes: Seq<StaticQuadTreeNode>,
    colliders_a: Seq<Collider>,
    colliders_b: Seq<Collider>,
    walks: Seq<Seq<usize>>,
    n: int,
    m: int,
)
    requires
        0 <= n <= colliders_a.len(),
        n <= walks.len(),
        0 <= m < all_events(colliders_a, spatial_buckets(nodes, colliders_b), walks, n).len(),
    ensures
        is_collision(
            colliders_a,
            colliders_b,
            all_events(colliders_a, spatial_buckets(nodes, colliders_b), walks, n)[m],
        ),
    decreases n,
{
    let buckets = spatial_buckets(nodes, colliders_b);
    let earlier = all_events(colliders_a, buckets, walks, n - 1);
    if m < earlier.len() {
        lemma_collisions_sound(nodes, colliders_a, colliders_b, walks, n - 1, m);
    } else {
        let a = colliders_a[n - 1];
        let rect_a = collider_rect(a);
        let walk = walks[n - 1];
        let along = walk_events(a.0, rect_a, buckets, walk, walk.len() as int);
        let pair = along[m - earlier.len()];
        lemma_walk_events_member(a.0, rect_a, buckets, walk, walk.len() as int, m - earlier.len());
        let w = choose|w: int|
            0 <= w < walk.len() && bucket_events(
                a.0,
                rect_a,
                bucket_at(buckets, #[trigger] walk[w]),
                bucket_at(buckets, walk[w]).len() as int,
            ).contains(pair);
        let bucket = bucket_at(buckets, walk[w]);
        let here = bucket_events(a.0, rect_a, bucket, bucket.len() as int);
        let e = choose|e: int| 0 <= e < here.len() && here[e] == pair;
        lemma_bucket_events_member(a.0, rect_a, bucket, bucket.len() as int, e);
        let t = choose|t: int|
            0 <= t < bucket.len() && here[e] == (a.0, (#[trigger] bucket[t]).0) && a.0
                != bucket[t].0 && rect_a.intersects(bucket[t].1);
        assert(buckets.contains_key(walk[w]));
        lemma_bucket_member(nodes, colliders_b, walk[w], colliders_b.len() as int, t);
        let j = choose|j: int|
            0 <= j < colliders_b.len() && bucket[t] == (
                (#[trigger] colliders_b[j]).0,
                collider_rect(colliders_b[j]),
            );
        assert(collide(colliders_a[n - 1], colliders_b[j]));
    }
}

/// A collider of the first category and one of the second that are different
/// entities, whose bounding rectangles intersect each other and both
/// intersect the bounds of `node`, are reported as a pair if the walk of the
/// first one visits `node`.
pub proof fn lemma_collisions_complete(
    nodes: Seq<StaticQuadTreeNode>,
    colliders_a: Seq<Collider>,
    colliders_b: Seq<Collider>,
    walks: Seq<Seq<usize>>,
    n: int,
    i: int,
    j: int,
    node: usize,
)
    requires
        0 <= i < n <= colliders_a.len(),
        n <= walks.len(),
        0 <= j < colliders_b.len(),
        collide(colliders_a[i], colliders_b[j]),
        node < nodes.len(),
        nodes[node as int].bounds.intersects(collider_rect(colliders_b[j])),
        walks[i].contains(node),
    ensures
        all_events(colliders_a, spatial_buckets(nodes, colliders_b), walks, n).contains(
            (colliders_a[i].0, colliders_b[j].0),
        ),
    decreases n,
{
    let buckets = spatial_buckets(nodes, colliders_b);
    let now = all_events(colliders_a, buckets, walks, n);
    let earlier = all_events(colliders_a, buckets, walks, n - 1);
    let pair = (colliders_a[i].0, colliders_b[j].0);
    if i < n - 1 {
        lemma_collisions_complete(nodes, colliders_a, colliders_b, walks, n - 1, i, j, node);
        let m = choose|m: int| 0 <= m < earlier.len() && earlier[m] == pair;
        assert(now[m] == pair);
    } else {
        let a = colliders_a[i];
        let rect_a = collider_rect(a);
        let walk = walks[i];
        let w = choose|w: int| 0 <= w < walk.len() && walk[w] == node;
        let occupant = (colliders_b[j].0, collider_rect(colliders_b[j]));
        lemma_bucket_has(nodes, colliders_b, node, colliders_b.len() as int, j);
        let filled = bucket_of(nodes, colliders_b, node, colliders_b.len() as int);
        let t = choose|t: int| 0 <= t < filled.len() && filled[t] == occupant;
        assert(buckets.contains_key(node));
        assert(bucket_at(buckets, node) == filled);
        lemma_bucket_events_has(a.0, rect_a, filled, filled.len() as int, t);
        lemma_walk_events_has(a.0, rect_a, buckets, walk, walk.len() as int, w, pair);
        let along = walk_events(a.0, rect_a, buckets, walk, walk.len() as int);
        let m = choose|m: int| 0 <= m < along.len() && along[m] == pair;
        assert(now[earlier.len() + m] == pair);
    }
}

/// The events of the first `n` colliders do not depend on later walks.
proof fn lemma_all_events_extend(
    colliders_a: Seq<Collider>,
    buckets: Map<usize, Seq<Occupant>>,
    walks: Seq<Seq<usize>>,
    walk: Seq<usize>,
    n: int,
)
    requires
        n <= walks.len(),
    ensures
        all_events(colliders_a, buckets, walks.push(walk), n) == all_events(
            colliders_a,
            buckets,
            walks,
            n,
        ),
    decreases n,
{
    if n > 0 {
        lemma_all_events_extend(colliders_a, buckets, walks, walk, n - 1);
        assert(walks.push(walk)[n - 1] == walks[n - 1]);
    }
}

/// Appends `occupant` to the bucket of `node`, starting the bucket if the
/// node has none yet.
fn add_occupant(spatial_index: &mut SpatialIndex, node: usize, occupant: Occupant)
    ensures
        spatial_index_view(*final(spatial_index)) == spatial_index_view(
            *old(spatial_index),
        ).insert(
            node,
            if spatial_index_view(*old(spatial_index)).contains_key(node) {
                spatial_index_view(*old(spatial_index))[node].push(occupant)
            } else {
                seq![occupant]
            },
        ),
{
    if let Some(contents) = spatial_index_get_mut(spatial_index, node) {
        contents.push(occupant);
    } else {
        let bucket = vec![occupant];
        assert(bucket@ =~= seq![occupant]);
        spatial_index_insert(spatial_index, node, bucket);
    }
}

/// Builds the spatial index over `colliders`: each one is entered into the
/// bucket of every node that its bounding rectangle intersects.
pub fn build_spatial_index(quad_tree: &StaticQuadTree, colliders: &Vec<Collider>) -> (index:
    SpatialIndex)
    requires
        quad_tree.wf(),
        colliders_placeable(colliders@),
    ensures
        spatial_index_view(index) == spatial_buckets(quad_tree.nodes@, colliders@),
{
    let mut spatial_index = spatial_index_new();
    assert(spatial_index_view(spatial_index) =~= buckets_during(
        quad_tree.nodes@,
        colliders@,
        0,
        Set::empty(),
    ));
    let mut n: usize = 0;
    while n < colliders.len()
        invariant
            n <= colliders.len(),
            quad_tree.wf(),
            colliders_placeable(colliders@),
            spatial_index_view(spatial_index) == buckets_during(
                quad_tree.nodes@,
                colliders@,
                n as int,
                Set::empty(),
            ),
        decreases colliders.len() - n,
    {
        let (entity, position, bbox) = colliders[n];
        let rect = bbox.as_rect(position);
        let in_nodes = quad_tree.intersecting_nodes(&rect);
        let walk = node_set_items(&in_nodes);
        let ghost mut visited: Set<usize> = Set::empty();
        let mut j: usize = 0;
        while j < walk.len()
            invariant
                j <= walk.len(),
                n < colliders.len(),
                colliders@[n as int] == (entity, position, bbox),
                rect == collider_rect(colliders@[n as int]),
                is_walk_of(walk@, quad_tree.spec_intersecting_nodes(rect)),
                forall|node: usize|
                    visited.contains(node) <==> exists|i: int|
                        0 <= i < j && walk@[i] == node,
                spatial_index_view(spatial_index) == buckets_during(
                    quad_tree.nodes@,
                    colliders@,
                    n as int,
                    visited,
                ),
            decreases walk.len() - j,
        {
            let node = walk[j];
            proof {
                assert(walk@.to_set().contains(node));
                assert(!visited.contains(node));
            }
            add_occupant(&mut spatial_index, node, (entity, rect));
            proof {
                let later = visited.insert(node);
                assert forall|other: usize| later.contains(other) <==> exists|i: int|
                    0 <= i < j + 1 && walk@[i] == other by {
                    if later.contains(other) {
                        if other == node {
                            assert(walk@[j as int] == other);
                        } else {
                            let i = choose|i: int| 0 <= i < j && walk@[i] == other;
                            assert(0 <= i < j + 1 && walk@[i] == other);
                        }
                    }
                }
                let bucket = bucket_of(quad_tree.nodes@, colliders@, node, n as int);
                assert(quad_tree.spec_intersecting_nodes(rect).contains(node));
                assert(bucket_of(quad_tree.nodes@, colliders@, node, n as int + 1) == bucket.push(
                    (entity, rect),
                ));
                assert(seq![(entity, rect)] =~= Seq::<Occupant>::empty().push((entity, rect)));
                assert(bucket.len() == 0 ==> bucket =~= Seq::empty());
                assert(spatial_index_view(spatial_index) =~= buckets_during(
                    quad_tree.nodes@,
                    colliders@,
                    n as int,
                    later,
                ));
                visited = later;
            }
            j += 1;
        }
        proof {
            assert forall|node: usize|
                visited.contains(node) <==> quad_tree.spec_intersecting_nodes(rect).contains(
                    node,
                ) by {
                if visited.contains(node) {
                    let i = choose|i: int| 0 <= i < j && walk@[i] == node;
                    assert(walk@.to_set().contains(walk@[i]));
                }
                if quad_tree.spec_intersecting_nodes(rect).contains(node) {
                    assert(walk@.to_set().contains(node));
                }
            }
            assert(spatial_index_view(spatial_index) =~= buckets_during(
                quad_tree.nodes@,
                colliders@,
                n as int + 1,
                Set::empty(),
            ));
        }
        n += 1;
    }
    spatial_index
}

/// Reports the collisions of one entity with the occupants of the nodes on
/// `walk`: for each node in turn, one event for each occupant of its bucket
/// that is another entity and whose rectangle intersects `bbox_a`.
pub fn collisions_along<A, B>(
    entity_a: EntityRef,
    bbox_a: &Rect2D,
    walk: &Vec<usize>,
    spatial_index: &SpatialIndex,
    events: &mut Vec<OnCollision<A, B>>,
)
    ensures
        event_pairs(final(events)@) == event_pairs(old(events)@) + walk_events(
            entity_a,
            *bbox_a,
            spatial_index_view(*spatial_index),
            walk@,
            walk@.len() as int,
        ),
{
    let ghost buckets = spatial_index_view(*spatial_index);
    let ghost before = event_pairs(events@);
    let mut k: usize = 0;
    assert(event_pairs(events@) =~= before + walk_events(entity_a, *bbox_a, buckets, walk@, 0));
    while k < walk.len()
        invariant
            k <= walk.len(),
            buckets == spatial_index_view(*spatial_index),
            event_pairs(events@) == before + walk_events(
                entity_a,
                *bbox_a,
                buckets,
                walk@,
                k as int,
            ),
        decreases walk.len() - k,
    {
        let node = walk[k];
        let ghost so_far = event_pairs(events@);
        let ghost bucket = bucket_at(buckets, node);
        if let Some(contents) = spatial_index_get(spatial_index, node) {
            let mut m: usize = 0;
            assert(event_pairs(events@) =~= so_far + bucket_events(entity_a, *bbox_a, bucket, 0));
            while m < contents.len()
                invariant
                    m <= contents.len(),
                    contents@ == bucket,
                    event_pairs(events@) == so_far + bucket_events(
                        entity_a,
                        *bbox_a,
                        bucket,
                        m as int,
                    ),
                decreases contents.len() - m,
            {
                let (entity_b, bbox_b) = contents[m];
                let ghost found = event_pairs(events@);
                if entity_a != entity_b && bbox_a.intersect(&bbox_b) {
                    events.push(OnCollision::new(entity_a, entity_b));
                    assert(event_pairs(events@) =~= found.push((entity_a, entity_b)));
                }
                assert(event_pairs(events@) =~= so_far + bucket_events(
                    entity_a,
                    *bbox_a,
                    bucket,
                    m as int + 1,
                ));
                m += 1;
            }
        } else {
            assert(event_pairs(events@) =~= so_far + bucket_events(entity_a, *bbox_a, bucket, 0));
        }
        assert(event_pairs(events@) =~= before + walk_events(
            entity_a,
            *bbox_a,
            buckets,
            walk@,
            k as int + 1,
        ));
        k += 1;
    }
}

/// Finds the collisions between the entities of `query_a` and those of
/// `query_b`. The entities of `query_b` are entered into a spatial index over
/// the nodes of `quad_tree`; each entity of `query_a` then visits the nodes
/// that its bounding rectangle intersects and is tested against their
/// occupants. The order in which an entity visits its nodes is not fixed, and
/// a pair is reported once for every node that both rectangles intersect.
pub fn check_collisions<A, B>(
    quad_tree: &StaticQuadTree,
    query_a: &Vec<Collider>,
    query_b: &Vec<Collider>,
) -> (events: Vec<OnCollision<A, B>>)
    requires
        quad_tree.wf(),
        colliders_placeable(query_a@),
        colliders_placeable(query_b@),
    ensures
        exists|walks: Seq<Seq<usize>>|
            collisions_by_walks(quad_tree, query_a@, query_b@, walks, event_pairs(events@)),
        forall|m: int|
            0 <= m < events@.len() ==> is_collision(
                query_a@,
                query_b@,
                #[trigger] event_pairs(events@)[m],
            ),
        forall|i: int, j: int|
            0 <= i < query_a@.len() && 0 <= j < query_b@.len() && collide(
                #[trigger] query_a@[i],
                #[trigger] query_b@[j],
            ) && quad_tree.nodes@[0].bounds.intersects(collider_rect(query_a@[i]))
                && quad_tree.nodes@[0].bounds.intersects(collider_rect(query_b@[j]))
                ==> event_pairs(events@).contains((query_a@[i].0, query_b@[j].0)),
{
    let spatial_index = build_spatial_index(quad_tree, query_b);
    let ghost buckets = spatial_buckets(quad_tree.nodes@, query_b@);
    let mut events: Vec<OnCollision<A, B>> = Vec::new();
    let ghost mut walks: Seq<Seq<usize>> = Seq::empty();
    let mut i: usize = 0;
    assert(event_pairs(events@) =~= all_events(query_a@, buckets, walks, 0));
    while i < query_a.len()
        invariant
            i <= query_a.len(),
            quad_tree.wf(),
            colliders_placeable(query_a@),
            buckets == spatial_index_view(spatial_index),
            walks.len() == i,
            forall|n: int|
                0 <= n < i ==> is_walk_of(
                    #[trigger] walks[n],
                    quad_tree.spec_intersecting_nodes(collider_rect(query_a@[n])),
                ),
            event_pairs(events@) == all_events(query_a@, buckets, walks, i as int),
        decreases query_a.len() - i,
    {
        let (entity_a, position_a, bbox_a) = query_a[i];
        let rect_a = bbox_a.as_rect(position_a);
        let walk = node_set_items(&quad_tree.intersecting_nodes(&rect_a));
        collisions_along(entity_a, &rect_a, &walk, &spatial_index, &mut events);
        proof {
            lemma_all_events_extend(query_a@, buckets, walks, walk@, i as int);
            walks = walks.push(walk@);
        }
        i += 1;
    }
    proof {
        let pairs = event_pairs(events@);
        assert(collisions_by_walks(quad_tree, query_a@, query_b@, walks, pairs));
        assert forall|m: int| 0 <= m < events@.len() implies is_collision(
            query_a@,
            query_b@,
            #[trigger] pairs[m],
        ) by {
            lemma_collisions_sound(
                quad_tree.nodes@,
                query_a@,
                query_b@,
                walks,
                query_a@.len() as int,
                m,
            );
        }
        assert forall|i: int, j: int|
            0 <= i < query_a@.len() && 0 <= j < query_b@.len() && collide(
                #[trigger] query_a@[i],
                #[trigger] query_b@[j],
            ) && quad_tree.nodes@[0].bounds.intersects(collider_rect(query_a@[i]))
                && quad_tree.nodes@[0].bounds.intersects(
                collider_rect(query_b@[j]),
            ) implies pairs.contains((query_a@[i].0, query_b@[j].0)) by {
            lemma_node_count(quad_tree.max_depth as nat);
            assert(quad_tree.spec_intersecting_nodes(collider_rect(query_a@[i])).contains(0));
            assert(walks[i].to_set().contains(0));
            lemma_collisions_complete(
                quad_tree.nodes@,
                query_a@,
                query_b@,
                walks,
                query_a@.len() as int,
                i,
                j,
                0,
            );
        }
    }
    events
}

} // verus!
