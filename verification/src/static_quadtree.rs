use crate::hash_collections::{node_set_insert, node_set_new, node_set_view};
use crate::rect2d::{lemma_quadrants_inside, Rect2D};
use crate::vector::Vector2;
use bevy::platform::collections::HashSet;
use vstd::arithmetic::power::pow;
use vstd::prelude::*;

verus! {

/// One node of the tree: the region it covers and, unless it is a leaf, the
/// indices of its four quadrants' nodes.
#[derive(Clone, Copy, Debug)]
pub struct StaticQuadTreeNode {
    pub bounds: Rect2D,
    pub children: Option<[usize; 4]>,
}

/// A quadtree over a fixed world rectangle, subdivided to a fixed depth when
/// it is built and never changed afterwards. The nodes live in one vector and
/// name each other by index; the root is node 0.
#[derive(Debug)]
pub struct StaticQuadTree {
    pub nodes: Vec<StaticQuadTreeNode>,
    pub max_depth: usize,
}

/// The number of nodes of a tree whose leaves are `depth` levels below the
/// root.
pub open spec fn node_count(depth: nat) -> nat {
    ((pow(4, depth + 1) - 1) / 3) as nat
}

/// A tree of depth 0 is its root; each further level multiplies by four and
/// adds the root.
pub proof fn lemma_node_count(depth: nat)
    ensures
        node_count(0) == 1,
        node_count(depth + 1) == 1 + 4 * node_count(depth),
        3 * node_count(depth) + 1 == pow(4, depth + 1),
        node_count(depth) >= 1,
    decreases depth,
{
    reveal_with_fuel(pow, 3);
    assert(pow(4, 1) == 4);
    if depth > 0 {
        lemma_node_count((depth - 1) as nat);
    }
    assert(pow(4, depth + 2) == 4 * pow(4, depth + 1));
}

/// A tree of depth 15 or less has at most 1,431,655,765 nodes, which a
/// `usize` of 32 bits can count.
pub proof fn lemma_node_count_fits(depth: nat)
    requires
        depth <= 15,
    ensures
        node_count(depth) <= 0x5555_5555,
        node_count(depth) <= usize::MAX,
{
    lemma_node_count(0);
    lemma_node_count(1);
    lemma_node_count(2);
    lemma_node_count(3);
    lemma_node_count(4);
    lemma_node_count(5);
    lemma_node_count(6);
    lemma_node_count(7);
    lemma_node_count(8);
    lemma_node_count(9);
    lemma_node_count(10);
    lemma_node_count(11);
    lemma_node_count(12);
    lemma_node_count(13);
    lemma_node_count(14);
}

/// The world rectangle of a tree built for `size`: centred on the origin,
/// reaching half of `size`, rounded down, to every side.
pub open spec fn world_bounds(size: Vector2) -> Rect2D {
    Rect2D {
        min: Vector2 { x: (-(size.x / 2)) as i32, y: (-(size.y / 2)) as i32 },
        max: Vector2 { x: (size.x / 2) as i32, y: (size.y / 2) as i32 },
    }
}

/// Where the descendants of child `k` start, for a node of height `height`
/// whose own descendants start at `block`: behind the four children and the
/// descendants of the children before `k`.
pub open spec fn child_block(block: int, height: nat, k: int) -> int {
    block + 4 + k * (node_count((height - 1) as nat) - 1)
}

/// The subtree of `index` is laid out as `subdivide` builds it. A node of
/// height 0 is a leaf. Otherwise its children are the four nodes from
/// `block` on, each covering one quadrant of the node's bounds in order, and
/// each the root of a well-formed subtree of the next lower height.
pub open spec fn subtree_wf(
    nodes: Seq<StaticQuadTreeNode>,
    index: int,
    block: int,
    height: nat,
) -> bool
    decreases height,
{
    &&& 0 <= index < nodes.len()
    &&& if height == 0 {
        nodes[index].children is None
    } else {
        let quads = nodes[index].bounds.spec_quadrants();
        let h = (height - 1) as nat;
        &&& index < block
        &&& block + node_count(height) - 1 <= nodes.len()
        &&& nodes[index].children matches Some(c)
        &&& c[0] == block
        &&& c[1] == block + 1
        &&& c[2] == block + 2
        &&& c[3] == block + 3
        &&& nodes[block].bounds == quads[0]
        &&& nodes[block + 1].bounds == quads[1]
        &&& nodes[block + 2].bounds == quads[2]
        &&& nodes[block + 3].bounds == quads[3]
        &&& subtree_wf(nodes, block, child_block(block, height, 0), h)
        &&& subtree_wf(nodes, block + 1, child_block(block, height, 1), h)
        &&& subtree_wf(nodes, block + 2, child_block(block, height, 2), h)
        &&& subtree_wf(nodes, block + 3, child_block(block, height, 3), h)
    }
}

/// Node `i` belongs to the subtree of `index`: it is `index` itself or one
/// of its descendants, which fill the `node_count(height) - 1` places from
/// `block` on.
pub open spec fn in_subtree(index: int, block: int, height: nat, i: int) -> bool {
    i == index || block <= i < block + node_count(height) - 1
}

/// A well-formed subtree stays well formed when the vector grows and
/// changes only outside the subtree.
pub proof fn lemma_subtree_wf_preserved(
    before: Seq<StaticQuadTreeNode>,
    after: Seq<StaticQuadTreeNode>,
    index: int,
    block: int,
    height: nat,
)
    requires
        subtree_wf(before, index, block, height),
        before.len() <= after.len(),
        after[index] == before[index],
        forall|i: int|
            block <= i < block + node_count(height) - 1 && 0 <= i < before.len() ==> after[i]
                == before[i],
    ensures
        subtree_wf(after, index, block, height),
    decreases height,
{
    if height > 0 {
        let h = (height - 1) as nat;
        lemma_node_count(h);
        lemma_subtree_wf_preserved(before, after, block, child_block(block, height, 0), h);
        lemma_subtree_wf_preserved(before, after, block + 1, child_block(block, height, 1), h);
        lemma_subtree_wf_preserved(before, after, block + 2, child_block(block, height, 2), h);
        lemma_subtree_wf_preserved(before, after, block + 3, child_block(block, height, 3), h);
    }
}

/// Those of the first `k` children whose bounds intersect `target`, in the
/// children's order.
pub open spec fn child_hits(
    nodes: Seq<StaticQuadTreeNode>,
    children: [usize; 4],
    target: Rect2D,
    k: int,
) -> Seq<usize>
    decreases k,
{
    if k <= 0 {
        Seq::empty()
    } else {
        let earlier = child_hits(nodes, children, target, k - 1);
        let child = children[k - 1];
        if nodes[child as int].bounds.intersects(target) {
            earlier.push(child)
        } else {
            earlier
        }
    }
}

/// Where the descent from `index` ends: it moves into a child as long as
/// exactly one of the node's four children intersects `target`, and stops at
/// a leaf, or where no child or more than one child intersects. `height` is
/// the height of `index`.
pub open spec fn descend(
    nodes: Seq<StaticQuadTreeNode>,
    index: int,
    target: Rect2D,
    height: nat,
) -> int
    decreases height,
{
    if height == 0 {
        index
    } else {
        match nodes[index].children {
            Some(children) => {
                let hits = child_hits(nodes, children, target, 4);
                if hits.len() == 1 {
                    descend(nodes, hits[0] as int, target, (height - 1) as nat)
                } else {
                    index
                }
            },
            None => index,
        }
    }
}

/// Every matching child is one of the first `k` children and intersects the
/// target; a child that intersects it is among the matches.
pub proof fn lemma_child_hits(
    nodes: Seq<StaticQuadTreeNode>,
    children: [usize; 4],
    target: Rect2D,
    k: int,
)
    requires
        0 <= k <= 4,
    ensures
        child_hits(nodes, children, target, k).len() <= k,
        forall|n: int|
            0 <= n < child_hits(nodes, children, target, k).len() ==> {
                let hit = #[trigger] child_hits(nodes, children, target, k)[n];
                &&& nodes[hit as int].bounds.intersects(target)
                &&& exists|j: int| 0 <= j < k && children[j] == hit
            },
        forall|j: int|
            0 <= j < k && nodes[#[trigger] children[j] as int].bounds.intersects(target)
                ==> child_hits(nodes, children, target, k).contains(children[j]),
    decreases k,
{
    if k > 0 {
        lemma_child_hits(nodes, children, target, k - 1);
        let earlier = child_hits(nodes, children, target, k - 1);
        let now = child_hits(nodes, children, target, k);
        let child = children[k - 1];
        assert forall|n: int| 0 <= n < now.len() implies {
            let hit = #[trigger] now[n];
            &&& nodes[hit as int].bounds.intersects(target)
            &&& exists|j: int| 0 <= j < k && children[j] == hit
        } by {
            if n < earlier.len() {
                let hit = earlier[n];
                let j = choose|j: int| 0 <= j < k - 1 && children[j] == hit;
                assert(0 <= j < k && children[j] == hit);
            } else {
                assert(now[n] == child);
                assert(children[k - 1] == child);
            }
        }
        assert forall|j: int|
            0 <= j < k && nodes[#[trigger] children[j] as int].bounds.intersects(
                target,
            ) implies now.contains(children[j]) by {
            if j < k - 1 {
                assert(earlier.contains(children[j]));
                let n = choose|n: int| 0 <= n < earlier.len() && earlier[n] == children[j];
                assert(now[n] == children[j]);
            } else {
                assert(now[now.len() - 1] == children[j]);
            }
        }
    }
}

/// A rectangle inside a node's bounds that meets only one of the node's
/// quadrants lies inside that quadrant.
proof fn lemma_sole_quadrant_contains(parent: Rect2D, target: Rect2D, k: int)
    requires
        parent.wf(),
        target.wf(),
        parent.contains(target),
        0 <= k < 4,
        forall|j: int| 0 <= j < 4 && j != k ==> !(#[trigger] parent.spec_quadrants()[j]).intersects(target),
    ensures
        parent.spec_quadrants()[k].contains(target),
{
    let q = parent.spec_quadrants();
    assert(!q[(k + 1) % 4].intersects(target));
    assert(!q[(k + 2) % 4].intersects(target));
    assert(!q[(k + 3) % 4].intersects(target));
}

/// The node at which a descent ends belongs to the subtree it started in.
/// If the target intersects the bounds of the starting node, it intersects
/// the bounds of the final node; if it lies inside the former, it lies
/// inside the latter.
pub proof fn lemma_descend(
    nodes: Seq<StaticQuadTreeNode>,
    index: int,
    block: int,
    height: nat,
    target: Rect2D,
)
    requires
        subtree_wf(nodes, index, block, height),
    ensures
        in_subtree(index, block, height, descend(nodes, index, target, height)),
        0 <= descend(nodes, index, target, height) < nodes.len(),
        nodes[index].bounds.intersects(target) ==> nodes[descend(
            nodes,
            index,
            target,
            height,
        )].bounds.intersects(target),
        nodes[index].bounds.wf() && target.wf() && nodes[index].bounds.contains(target)
            ==> nodes[descend(nodes, index, target, height)].bounds.contains(target),
    decreases height,
{
    if height > 0 {
        let below = (height - 1) as nat;
        let children = nodes[index].children->Some_0;
        let hits = child_hits(nodes, children, target, 4);
        lemma_node_count(below);
        lemma_child_hits(nodes, children, target, 4);
        if hits.len() == 1 {
            let hit = hits[0];
            let k = choose|k: int| 0 <= k < 4 && children[k] == hit;
            assert(hit == block + k);
            lemma_descend(nodes, block + k, child_block(block, height, k), below, target);
            let parent = nodes[index].bounds;
            if parent.wf() && target.wf() && parent.contains(target) {
                assert forall|j: int| 0 <= j < 4 && j != k implies !(
                #[trigger] parent.spec_quadrants()[j]).intersects(target) by {
                    if parent.spec_quadrants()[j].intersects(target) {
                        assert(nodes[children[j] as int].bounds == parent.spec_quadrants()[j]);
                        assert(hits.contains(children[j]));
                    }
                }
                lemma_sole_quadrant_contains(parent, target, k);
                lemma_quadrants_inside(parent, k);
            }
        }
    }
}

/// Every node of a subtree lies inside the bounds of the subtree's root.
pub proof fn lemma_subtree_bounds(
    nodes: Seq<StaticQuadTreeNode>,
    index: int,
    block: int,
    height: nat,
    i: int,
)
    requires
        subtree_wf(nodes, index, block, height),
        nodes[index].bounds.wf(),
        in_subtree(index, block, height, i),
    ensures
        0 <= i < nodes.len(),
        nodes[i].bounds.wf(),
        nodes[index].bounds.contains(nodes[i].bounds),
    decreases height,
{
    if i != index {
        let below = (height - 1) as nat;
        let size = node_count(below) as int;
        lemma_node_count(below);
        let parent = nodes[index].bounds;
        let k: int = if i < block + 4 {
            i - block
        } else if i < child_block(block, height, 1) {
            0
        } else if i < child_block(block, height, 2) {
            1
        } else if i < child_block(block, height, 3) {
            2
        } else {
            3
        };
        lemma_quadrants_inside(parent, k);
        assert(in_subtree(block + k, child_block(block, height, k), below, i));
        lemma_subtree_bounds(nodes, block + k, child_block(block, height, k), below, i);
    }
}

/// The nodes of the subtree of `index` whose bounds intersect `target`.
pub open spec fn subtree_hits(
    nodes: Seq<StaticQuadTreeNode>,
    index: int,
    block: int,
    height: nat,
    target: Rect2D,
) -> Set<usize> {
    Set::new(
        |i: usize|
            in_subtree(index, block, height, i as int) && i < nodes.len()
                && nodes[i as int].bounds.intersects(target),
    )
}

/// The nodes among the first `k` children of `index`, and among those
/// children's descendants, whose bounds intersect `target`.
pub open spec fn children_hits(
    nodes: Seq<StaticQuadTreeNode>,
    block: int,
    height: nat,
    k: int,
    target: Rect2D,
) -> Set<usize> {
    Set::new(
        |i: usize|
            (block <= i < block + k || block + 4 <= i < child_block(block, height, k)) && i
                < nodes.len() && nodes[i as int].bounds.intersects(target),
    )
}

impl StaticQuadTree {
    /// The tree has exactly the nodes of a full tree of its depth, laid out
    /// from the root at index 0, over a well-formed world rectangle.
    pub open spec fn wf(&self) -> bool {
        &&& self.nodes@.len() == node_count(self.max_depth as nat)
        &&& subtree_wf(self.nodes@, 0, 1, self.max_depth as nat)
        &&& self.nodes@[0].bounds.wf()
    }

    /// Builds the tree for a world of `screen_size`, centred on the origin,
    /// with its leaves `max_depth` levels below the root.
    pub fn new(screen_size: Vector2, max_depth: usize) -> (tree: Self)
        requires
            screen_size.x >= 0,
            screen_size.y >= 0,
            node_count(max_depth as nat) <= usize::MAX,
        ensures
            tree.wf(),
            tree.max_depth == max_depth,
            tree.nodes@[0].bounds == world_bounds(screen_size),
            tree.nodes@.len() == (pow(4, (max_depth + 1) as nat) - 1) / 3,
    {
        let mut nodes: Vec<StaticQuadTreeNode> = Vec::new();
        let half = Vector2 { x: screen_size.x / 2, y: screen_size.y / 2 };
        let top = StaticQuadTreeNode {
            bounds: Rect2D::new(
                Vector2 { x: 0 - half.x, y: 0 - half.y },
                Vector2 { x: half.x, y: half.y },
            ),
            children: None,
        };
        nodes.push(top);
        proof {
            lemma_node_count(max_depth as nat);
        }
        if max_depth > 0 {
            Self::subdivide(&mut nodes, 0, 1, max_depth);
        }
        StaticQuadTree { nodes, max_depth }
    }

    /// The node that `smallest_node` finds for `target`.
    pub open spec fn spec_smallest_node(&self, target: Rect2D) -> int {
        descend(self.nodes@, 0, target, self.max_depth as nat)
    }

    /// Finds the smallest node that holds `target` without splitting it:
    /// starting at the root, it moves into a child while exactly one child
    /// intersects `target`.
    pub fn smallest_node(&self, target: &Rect2D) -> (found: usize)
        requires
            self.wf(),
        ensures
            found == self.spec_smallest_node(*target),
            found < self.nodes@.len(),
            self.nodes@[0].bounds.intersects(*target) ==> self.nodes@[found as int].bounds.intersects(
                *target,
            ),
            target.wf() && self.nodes@[0].bounds.contains(*target)
                ==> self.nodes@[found as int].bounds.contains(*target),
    {
        let mut current_index: usize = 0;
        let ghost mut block: int = 1;
        let ghost mut height: nat = self.max_depth as nat;
        proof {
            lemma_descend(self.nodes@, 0, 1, self.max_depth as nat, *target);
        }
        loop
            invariant
                subtree_wf(self.nodes@, current_index as int, block, height),
                descend(self.nodes@, current_index as int, *target, height)
                    == self.spec_smallest_node(*target),
            ensures
                current_index == self.spec_smallest_node(*target),
            decreases height,
        {
            if let Some(children) = self.nodes[current_index].children {
                let mut matches: Vec<usize> = Vec::new();
                let mut k: usize = 0;
                proof {
                    lemma_node_count((height - 1) as nat);
                }
                while k < 4
                    invariant
                        k <= 4,
                        height > 0,
                        forall|j: int| 0 <= j < 4 ==> #[trigger] children[j] < self.nodes@.len(),
                        subtree_wf(self.nodes@, current_index as int, block, height),
                        self.nodes@[current_index as int].children == Some(children),
                        matches@ == child_hits(self.nodes@, children, *target, k as int),
                    decreases 4 - k,
                {
                    let child = children[k];
                    if self.nodes[child].bounds.intersect(target) {
                        matches.push(child);
                    }
                    k += 1;
                }
                if matches.len() == 1 {
                    proof {
                        lemma_child_hits(self.nodes@, children, *target, 4);
                        let j = choose|j: int| 0 <= j < 4 && children[j] == matches@[0];
                        block = child_block(block, height, j);
                        height = (height - 1) as nat;
                    }
                    current_index = matches[0];
                } else {
                    break ;
                }
            } else {
                break ;
            }
        }
        current_index
    }

    /// Every node whose bounds intersect `target`.
    pub open spec fn spec_intersecting_nodes(&self, target: Rect2D) -> Set<usize> {
        Set::new(
            |i: usize| i < self.nodes@.len() && self.nodes@[i as int].bounds.intersects(target),
        )
    }

    /// Collects every node, inner nodes and leaves alike, whose bounds
    /// intersect `target`.
    pub fn intersecting_nodes(&self, target: &Rect2D) -> (result: HashSet<usize>)
        requires
            self.wf(),
        ensures
            node_set_view(result) == self.spec_intersecting_nodes(*target),
    {
        let mut result = node_set_new();
        self.intersect(0, &mut result, target, Ghost(1), Ghost(self.max_depth as nat));
        assert(node_set_view(result) =~= self.spec_intersecting_nodes(*target));
        result
    }

    /// Adds to `result` the nodes of the subtree of `index` that intersect
    /// `target`, walking it in pre-order and leaving out every subtree whose
    /// root does not intersect.
    fn intersect(
        &self,
        index: usize,
        result: &mut HashSet<usize>,
        target: &Rect2D,
        Ghost(block): Ghost<int>,
        Ghost(height): Ghost<nat>,
    )
        requires
            subtree_wf(self.nodes@, index as int, block, height),
            self.nodes@[index as int].bounds.wf(),
        ensures
            node_set_view(*final(result)) == node_set_view(*old(result)).union(
                subtree_hits(self.nodes@, index as int, block, height, *target),
            ),
        decreases height,
    {
        let ghost hits = subtree_hits(self.nodes@, index as int, block, height, *target);
        if self.nodes[index].bounds.intersect(target) {
            node_set_insert(result, index);
            if let Some(children) = &self.nodes[index].children {
                let ghost below = (height - 1) as nat;
                let ghost size = node_count(below) as int;
                proof {
                    lemma_node_count(below);
                    assert(children_hits(self.nodes@, block, height, 0, *target) =~= Set::empty());
                    assert(node_set_view(*result) =~= node_set_view(*old(result)).insert(index).union(
                        children_hits(self.nodes@, block, height, 0, *target),
                    ));
                }
                let mut k: usize = 0;
                while k < 4
                    invariant
                        k <= 4,
                        height > 0,
                        below == height - 1,
                        size == node_count(below),
                        size >= 1,
                        index < self.nodes@.len(),
                        subtree_wf(self.nodes@, index as int, block, height),
                        self.nodes@[index as int].bounds.wf(),
                        self.nodes@[index as int].children == Some(*children),
                        node_set_view(*result) == node_set_view(*old(result)).insert(index).union(
                            children_hits(self.nodes@, block, height, k as int, *target),
                        ),
                    decreases 4 - k,
                {
                    let ghost before = node_set_view(*result);
                    let ghost start = child_block(block, height, k as int);
                    proof {
                        lemma_quadrants_inside(self.nodes@[index as int].bounds, k as int);
                        assert((k + 1) * (size - 1) == k * (size - 1) + (size - 1))
                            by (nonlinear_arith);
                    }
                    self.intersect(children[k], result, target, Ghost(start), Ghost(below));
                    proof {
                        assert(node_set_view(*result) =~= node_set_view(*old(result)).insert(
                            index,
                        ).union(
                            children_hits(self.nodes@, block, height, k as int + 1, *target),
                        ));
                    }
                    k += 1;
                }
                proof {
                    let kids = children_hits(self.nodes@, block, height, 4, *target);
                    assert(child_block(block, height, 4) == block + node_count(height) - 1);
                    assert(hits =~= kids.insert(index));
                    assert(node_set_view(*result) =~= node_set_view(*old(result)).union(hits));
                }
            } else {
                proof {
                    lemma_node_count(0);
                    assert(node_set_view(*result) =~= node_set_view(*old(result)).union(hits));
                }
            }
        } else {
            proof {
                assert forall|i: usize| !hits.contains(i) by {
                    if in_subtree(index as int, block, height, i as int) {
                        lemma_subtree_bounds(self.nodes@, index as int, block, height, i as int);
                    }
                }
                assert(node_set_view(*result) =~= node_set_view(*old(result)).union(hits));
            }
        }
    }

    /// Gives the leaf `index` its four quadrants as children, appended to
    /// `nodes`, and subdivides each of them in turn until the children are
    /// `max_depth` levels below the root. `depth` is the level of the
    /// children.
    fn subdivide(
        nodes: &mut Vec<StaticQuadTreeNode>,
        index: usize,
        depth: usize,
        max_depth: usize,
    )
        requires
            1 <= depth <= max_depth,
            index < old(nodes)@.len(),
            old(nodes)@[index as int].children is None,
            old(nodes)@.len() + node_count((max_depth - depth + 1) as nat) - 1 <= usize::MAX,
        ensures
            final(nodes)@.len() == old(nodes)@.len() + node_count(
                (max_depth - depth + 1) as nat,
            ) - 1,
            forall|i: int|
                0 <= i < old(nodes)@.len() && i != index ==> final(nodes)@[i] == old(nodes)@[i],
            final(nodes)@[index as int].bounds == old(nodes)@[index as int].bounds,
            subtree_wf(
                final(nodes)@,
                index as int,
                old(nodes)@.len() as int,
                (max_depth - depth + 1) as nat,
            ),
        decreases max_depth - depth,
    {
        let ghost height = (max_depth - depth + 1) as nat;
        let ghost below = (max_depth - depth) as nat;
        let ghost size = node_count(below) as int;
        proof {
            lemma_node_count(below);
        }
        let bounds = nodes[index].bounds;
        let quads = bounds.quadrants();
        let block = nodes.len();
        let child_index = [block, block + 1, block + 2, block + 3];
        nodes.set(index, StaticQuadTreeNode { bounds, children: Some(child_index) });
        let mut k: usize = 0;
        while k < 4
            invariant
                k <= 4,
                block + 4 <= usize::MAX,
                index < block,
                block == old(nodes)@.len(),
                quads@ == bounds.spec_quadrants(),
                nodes@.len() == block + k,
                nodes@[index as int] == (StaticQuadTreeNode { bounds, children: Some(child_index) }),
                forall|i: int| 0 <= i < block && i != index ==> nodes@[i] == old(nodes)@[i],
                forall|i: int|
                    block <= i < block + k ==> nodes@[i] == (StaticQuadTreeNode {
                        bounds: quads@[i - block],
                        children: None,
                    }),
            decreases 4 - k,
        {
            nodes.push(StaticQuadTreeNode { bounds: quads[k], children: None });
            k += 1;
        }
        if depth < max_depth {
            let mut k: usize = 0;
            while k < 4
                invariant
                    k <= 4,
                    1 <= depth < max_depth,
                    below == (max_depth - depth) as nat,
                    height == below + 1,
                    size == node_count(below),
                    size >= 1,
                    block + 4 * size <= usize::MAX,
                    index < block,
                    block == old(nodes)@.len(),
                    child_index[0] == block,
                    child_index[1] == block + 1,
                    child_index[2] == block + 2,
                    child_index[3] == block + 3,
                    quads@ == bounds.spec_quadrants(),
                    nodes@.len() == child_block(block as int, height, k as int),
                    nodes@[index as int] == (StaticQuadTreeNode {
                        bounds,
                        children: Some(child_index),
                    }),
                    forall|i: int| 0 <= i < block && i != index ==> nodes@[i] == old(nodes)@[i],
                    forall|i: int| block <= i < block + 4 ==> nodes@[i].bounds == quads@[i - block],
                    forall|i: int| block + k <= i < block + 4 ==> nodes@[i].children is None,
                    forall|j: int|
                        0 <= j < k ==> subtree_wf(
                            nodes@,
                            block + j,
                            #[trigger] child_block(block as int, height, j),
                            below,
                        ),
                decreases 4 - k,
            {
                let ghost before = nodes@;
                proof {
                    lemma_node_count((below - 1) as nat);
                    assert((k + 1) * (size - 1) == k * (size - 1) + (size - 1))
                        by (nonlinear_arith);
                    assert(k * (size - 1) <= 3 * (size - 1)) by (nonlinear_arith)
                        requires
                            k <= 3,
                            size >= 1,
                    ;
                }
                Self::subdivide(nodes, child_index[k], depth + 1, max_depth);
                proof {
                    assert forall|j: int| 0 <= j < k implies subtree_wf(
                        nodes@,
                        block + j,
                        #[trigger] child_block(block as int, height, j),
                        below,
                    ) by {
                        assert(j * (size - 1) + (size - 1) <= k * (size - 1)) by (nonlinear_arith)
                            requires
                                0 <= j < k,
                                size >= 1,
                        ;
                        lemma_subtree_wf_preserved(
                            before,
                            nodes@,
                            block + j,
                            child_block(block as int, height, j),
                            below,
                        );
                    }
                }
                k += 1;
            }
        }
        proof {
            assert(node_count(height) - 1 == 4 * size);
            if depth < max_depth {
                assert(nodes@.len() == child_block(block as int, height, 4));
                assert(node_count((height - 1) as nat) == size);
                assert(nodes@.len() == block + 4 + 4 * (size - 1));
            } else {
                assert(below == 0);
                assert(size == 1);
                assert(nodes@.len() == block + 4);
            }
            assert(nodes@.len() == block + 4 * size);
            assert(subtree_wf(nodes@, block as int, child_block(block as int, height, 0), below));
            assert(subtree_wf(nodes@, block + 1, child_block(block as int, height, 1), below));
            assert(subtree_wf(nodes@, block + 2, child_block(block as int, height, 2), below));
            assert(subtree_wf(nodes@, block + 3, child_block(block as int, height, 3), below));
        }
    }
}

/// The node that `smallest_node` finds for a target that touches the world
/// is one of the nodes that `intersecting_nodes` reports for it.
pub proof fn lemma_smallest_node_is_intersecting(tree: &StaticQuadTree, target: Rect2D)
    requires
        tree.wf(),
        tree.nodes@[0].bounds.intersects(target),
    ensures
        0 <= tree.spec_smallest_node(target) < tree.nodes@.len(),
        tree.spec_intersecting_nodes(target).contains(tree.spec_smallest_node(target) as usize),
{
    lemma_descend(tree.nodes@, 0, 1, tree.max_depth as nat, target);
    assert(tree.nodes.len() == tree.nodes@.len());
}

/// Below a node with children, the descent for a target that is exactly the
/// bounds of a leaf never ends at that leaf. The leaf touches its three
/// siblings at the centre of their parent, so at the parent, at the latest,
/// more than one child intersects the target and the descent stops.
pub proof fn lemma_descend_stops_above_leaf(
    nodes: Seq<StaticQuadTreeNode>,
    index: int,
    block: int,
    height: nat,
    leaf: int,
)
    requires
        subtree_wf(nodes, index, block, height),
        height >= 1,
        nodes[index].bounds.wf(),
        0 <= leaf < nodes.len(),
        nodes[leaf].children is None,
    ensures
        descend(nodes, index, nodes[leaf].bounds, height) != leaf,
    decreases height,
{
    let target = nodes[leaf].bounds;
    let below = (height - 1) as nat;
    let parent = nodes[index].bounds;
    let children = nodes[index].children->Some_0;
    let hits = child_hits(nodes, children, target, 4);
    lemma_node_count(below);
    lemma_child_hits(nodes, children, target, 4);
    if hits.len() == 1 {
        let k = choose|k: int| 0 <= k < 4 && children[k] == hits[0];
        assert(hits[0] == block + k);
        lemma_quadrants_inside(parent, k);
        if below == 0 {
            assert(descend(nodes, hits[0] as int, target, 0) == hits[0]);
            if hits[0] == leaf {
                lemma_quadrants_inside(parent, 0);
                lemma_quadrants_inside(parent, 1);
                assert(nodes[children[0] as int].bounds.intersects(target));
                assert(nodes[children[1] as int].bounds.intersects(target));
                assert(hits.contains(children[0]));
                assert(hits.contains(children[1]));
                let first = choose|n: int| 0 <= n < hits.len() && hits[n] == children[0];
                let second = choose|n: int| 0 <= n < hits.len() && hits[n] == children[1];
                assert(first == 0 && second == 0);
                assert(children[0] != children[1]);
            }
        } else {
            lemma_descend_stops_above_leaf(
                nodes,
                block + k,
                child_block(block, height, k),
                below,
                leaf,
            );
        }
    } else {
        assert(nodes[index].children is Some);
    }
}

/// In a tree with more than its root, `smallest_node` never assigns the
/// bounds of a leaf to that leaf.
pub proof fn lemma_smallest_node_skips_leaf_bounds(tree: &StaticQuadTree, leaf: int)
    requires
        tree.wf(),
        tree.max_depth >= 1,
        0 <= leaf < tree.nodes@.len(),
        tree.nodes@[leaf].children is None,
    ensures
        tree.spec_smallest_node(tree.nodes@[leaf].bounds) != leaf,
{
    lemma_descend_stops_above_leaf(tree.nodes@, 0, 1, tree.max_depth as nat, leaf);
}

/// In a tree that is only its root, every target is assigned to the root,
/// the tree's one leaf.
pub proof fn lemma_smallest_node_of_single_leaf(tree: &StaticQuadTree, target: Rect2D)
    requires
        tree.wf(),
        tree.max_depth == 0,
    ensures
        tree.nodes@.len() == 1,
        tree.nodes@[0].children is None,
        tree.spec_smallest_node(target) == 0,
{
    lemma_node_count(0);
}

} // verus!
