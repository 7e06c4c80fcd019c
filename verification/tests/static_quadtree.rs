use game_support::{Rect2D, StaticQuadTree, Vector2};

fn rect(x0: i32, y0: i32, x1: i32, y1: i32) -> Rect2D {
    Rect2D::new(Vector2::new(x0, y0), Vector2::new(x1, y1))
}

fn sorted(set: &bevy::platform::collections::HashSet<usize>) -> Vec<usize> {
    let mut nodes: Vec<usize> = set.iter().copied().collect();
    nodes.sort();
    nodes
}

#[test]
fn node_count_grows_by_powers_of_four() {
    let expected = [1usize, 5, 21, 85, 341, 1365, 5461];
    for (depth, count) in expected.iter().enumerate() {
        let tree = StaticQuadTree::new(Vector2::new(1024, 768), depth);
        assert_eq!(tree.nodes.len(), *count);
        assert_eq!(tree.nodes.len(), (4usize.pow(depth as u32 + 1) - 1) / 3);
        assert_eq!(tree.max_depth, depth);
    }
}

#[test]
fn tree_of_depth_zero_is_its_root() {
    let tree = StaticQuadTree::new(Vector2::new(1024, 768), 0);
    assert_eq!(tree.nodes.len(), 1);
    assert!(tree.nodes[0].children.is_none());
    assert_eq!(tree.smallest_node(&rect(-8, -8, 8, 8)), 0);
    assert_eq!(tree.smallest_node(&rect(-512, -384, 512, 384)), 0);
    assert_eq!(sorted(&tree.intersecting_nodes(&rect(-8, -8, 8, 8))), vec![0]);
}

#[test]
fn root_covers_the_world_around_the_origin() {
    let tree = StaticQuadTree::new(Vector2::new(1024, 768), 4);
    assert_eq!(tree.nodes[0].bounds, rect(-512, -384, 512, 384));
    let odd = StaticQuadTree::new(Vector2::new(101, 61), 1);
    assert_eq!(odd.nodes[0].bounds, rect(-50, -30, 50, 30));
}

#[test]
fn children_are_the_quadrants_of_their_parent() {
    let tree = StaticQuadTree::new(Vector2::new(1024, 768), 4);
    let mut leaves = 0;
    for node in tree.nodes.iter() {
        match node.children {
            Some(children) => {
                let quads = node.bounds.quadrants();
                for k in 0..4 {
                    assert_eq!(tree.nodes[children[k]].bounds, quads[k]);
                }
            }
            None => leaves += 1,
        }
    }
    assert_eq!(leaves, 256);
}

#[test]
fn children_follow_their_parent_subtree_by_subtree() {
    let tree = StaticQuadTree::new(Vector2::new(1024, 768), 3);
    assert_eq!(tree.nodes[0].children, Some([1, 2, 3, 4]));
    assert_eq!(tree.nodes[1].children, Some([5, 6, 7, 8]));
    assert_eq!(tree.nodes[5].children, Some([9, 10, 11, 12]));
    assert_eq!(tree.nodes[6].children, Some([13, 14, 15, 16]));
    assert_eq!(tree.nodes[2].children, Some([25, 26, 27, 28]));
    assert_eq!(tree.nodes[25].children, Some([29, 30, 31, 32]));
    assert_eq!(tree.nodes[9].children, None);
    let small = StaticQuadTree::new(Vector2::new(100, 60), 2);
    assert_eq!(small.nodes[1].bounds, rect(-50, -30, 0, 0));
    assert_eq!(small.nodes[2].bounds, rect(0, -30, 50, 0));
    assert_eq!(small.nodes[3].bounds, rect(-50, 0, 0, 30));
    assert_eq!(small.nodes[4].bounds, rect(0, 0, 50, 30));
    assert_eq!(small.nodes[5].bounds, rect(-50, -30, -25, -15));
}

#[test]
fn smallest_node_descends_while_one_child_intersects() {
    let tree = StaticQuadTree::new(Vector2::new(1024, 768), 4);
    let target = rect(-500, -370, -490, -360);
    let found = tree.smallest_node(&target);
    assert_eq!(found, 13);
    assert!(tree.nodes[found].children.is_none());
    assert!(tree.nodes[found].bounds.intersect(&target));
    assert_eq!(tree.nodes[found].bounds, rect(-512, -384, -448, -336));
}

#[test]
fn smallest_node_stops_where_the_target_straddles_a_boundary() {
    let tree = StaticQuadTree::new(Vector2::new(1024, 768), 4);
    assert_eq!(tree.smallest_node(&rect(-8, -8, 8, 8)), 0);
    assert_eq!(tree.smallest_node(&rect(2, -8, 18, 8)), 0);
    assert_eq!(tree.smallest_node(&rect(-300, -200, -200, -100)), 1);
}

#[test]
fn smallest_node_for_the_bounds_of_a_leaf_is_its_parent() {
    let tree = StaticQuadTree::new(Vector2::new(1024, 768), 4);
    let leaf_bounds = tree.nodes[13].bounds;
    assert_eq!(tree.smallest_node(&leaf_bounds), 9);
    assert_eq!(tree.nodes[9].children, Some([13, 14, 15, 16]));
}

#[test]
fn smallest_node_outside_the_world_is_the_root() {
    let tree = StaticQuadTree::new(Vector2::new(1024, 768), 4);
    assert_eq!(tree.smallest_node(&rect(2000, 2000, 2010, 2010)), 0);
}

#[test]
fn intersecting_nodes_reports_every_level() {
    let tree = StaticQuadTree::new(Vector2::new(1024, 768), 4);
    assert_eq!(
        sorted(&tree.intersecting_nodes(&rect(-500, -370, -490, -360))),
        vec![0, 1, 5, 9, 13]
    );
    assert_eq!(
        sorted(&tree.intersecting_nodes(&rect(-8, -8, 8, 8))),
        vec![0, 1, 2, 3, 4, 8, 72, 88, 91, 135, 147, 174, 198, 206, 257, 261, 265]
    );
    assert_eq!(
        sorted(&tree.intersecting_nodes(&rect(2, -8, 18, 8))),
        vec![0, 2, 4, 91, 135, 147, 257, 261, 265]
    );
}

#[test]
fn intersecting_nodes_are_exactly_the_nodes_that_intersect() {
    let tree = StaticQuadTree::new(Vector2::new(100, 60), 3);
    let targets = [
        rect(-8, -8, 8, 8),
        rect(-50, -30, 50, 30),
        rect(13, 7, 14, 29),
        rect(50, 30, 60, 40),
        rect(-49, -29, -48, -28),
    ];
    for target in targets.iter() {
        let found = tree.intersecting_nodes(target);
        for (index, node) in tree.nodes.iter().enumerate() {
            assert_eq!(found.contains(&index), node.bounds.intersect(target));
        }
    }
}

#[test]
fn intersecting_nodes_outside_the_world_is_empty() {
    let tree = StaticQuadTree::new(Vector2::new(1024, 768), 4);
    assert!(tree.intersecting_nodes(&rect(2000, 2000, 2010, 2010)).is_empty());
}

#[test]
fn smallest_node_is_among_the_intersecting_nodes() {
    let tree = StaticQuadTree::new(Vector2::new(1024, 768), 5);
    let targets = [
        rect(-8, -8, 8, 8),
        rect(-500, -370, -490, -360),
        rect(100, 100, 130, 120),
        rect(511, 383, 600, 600),
        rect(-512, -384, 512, 384),
        rect(37, -211, 38, -210),
    ];
    for target in targets.iter() {
        let found = tree.smallest_node(target);
        assert!(found < tree.nodes.len());
        assert!(tree.nodes[found].bounds.intersect(target));
        assert!(tree.intersecting_nodes(target).contains(&found));
    }
}
