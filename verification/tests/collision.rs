use bevy::platform::collections::HashMap;
use game_support::collision::{
    build_spatial_index, check_collisions, collisions_along, Collider, OnCollision,
};
use game_support::{AxisAlignedBoundingBox, EntityRef, Rect2D, StaticQuadTree, Vector2};

struct Ball;

struct Wall;

fn collider(bits: u64, x: i32, y: i32, width: i32, height: i32) -> Collider {
    (EntityRef { bits }, Vector2::new(x, y), AxisAlignedBoundingBox::new(width, height))
}

fn rect(x0: i32, y0: i32, x1: i32, y1: i32) -> Rect2D {
    Rect2D::new(Vector2::new(x0, y0), Vector2::new(x1, y1))
}

fn pairs(events: &Vec<OnCollision<Ball, Wall>>) -> Vec<(u64, u64)> {
    events.iter().map(|event| (event.entity_a.bits, event.entity_b.bits)).collect()
}

fn distinct(events: &Vec<OnCollision<Ball, Wall>>) -> Vec<(u64, u64)> {
    let mut found = pairs(events);
    found.sort();
    found.dedup();
    found
}

#[test]
fn overlapping_boxes_collide() {
    let tree = StaticQuadTree::new(Vector2::new(1024, 768), 4);
    let balls = vec![collider(1, 0, 0, 16, 16)];
    let walls = vec![collider(2, 10, 0, 16, 16)];
    let events: Vec<OnCollision<Ball, Wall>> = check_collisions(&tree, &balls, &walls);
    assert_eq!(distinct(&events), vec![(1, 2)]);
    assert_eq!(events.len(), 9);
    assert!(pairs(&events).iter().all(|pair| *pair == (1, 2)));
}

#[test]
fn boxes_apart_do_not_collide() {
    let tree = StaticQuadTree::new(Vector2::new(1024, 768), 4);
    let balls = vec![collider(1, 0, 0, 16, 16)];
    let walls = vec![collider(2, 20, 0, 16, 16)];
    let events: Vec<OnCollision<Ball, Wall>> = check_collisions(&tree, &balls, &walls);
    assert!(events.is_empty());
}

#[test]
fn pair_is_reported_once_for_each_shared_node() {
    let tree = StaticQuadTree::new(Vector2::new(1024, 768), 4);
    let balls = vec![collider(1, -495, -365, 10, 10)];
    let walls = vec![collider(2, -490, -360, 10, 10)];
    let events: Vec<OnCollision<Ball, Wall>> = check_collisions(&tree, &balls, &walls);
    assert_eq!(pairs(&events), vec![(1, 2); 5]);
    let root_only = StaticQuadTree::new(Vector2::new(1024, 768), 0);
    let events: Vec<OnCollision<Ball, Wall>> = check_collisions(&root_only, &balls, &walls);
    assert_eq!(pairs(&events), vec![(1, 2)]);
}

#[test]
fn every_overlapping_pair_in_the_world_is_found() {
    let tree = StaticQuadTree::new(Vector2::new(1024, 768), 3);
    let balls = vec![
        collider(1, 0, 0, 16, 16),
        collider(2, 300, 200, 40, 40),
        collider(3, -400, -300, 10, 10),
    ];
    let walls = vec![
        collider(10, 10, 0, 16, 16),
        collider(11, 310, 210, 8, 8),
        collider(12, 0, 100, 2000, 2),
        collider(13, -7, -7, 2, 2),
    ];
    let events: Vec<OnCollision<Ball, Wall>> = check_collisions(&tree, &balls, &walls);
    assert_eq!(distinct(&events), vec![(1, 10), (1, 13), (2, 11)]);
}

#[test]
fn events_are_grouped_by_the_first_category() {
    let tree = StaticQuadTree::new(Vector2::new(1024, 768), 0);
    let balls = vec![collider(1, 0, 0, 16, 16), collider(2, 4, 4, 16, 16)];
    let walls = vec![collider(10, 10, 0, 16, 16), collider(11, -10, 0, 16, 16)];
    let events: Vec<OnCollision<Ball, Wall>> = check_collisions(&tree, &balls, &walls);
    assert_eq!(pairs(&events), vec![(1, 10), (1, 11), (2, 10), (2, 11)]);
}

#[test]
fn entity_does_not_collide_with_itself() {
    let tree = StaticQuadTree::new(Vector2::new(1024, 768), 2);
    let both = vec![collider(1, 0, 0, 16, 16), collider(2, 500, 300, 4, 4)];
    let events: Vec<OnCollision<Ball, Wall>> = check_collisions(&tree, &both, &both);
    assert!(events.is_empty());
}

#[test]
fn entities_outside_the_world_are_not_found() {
    let tree = StaticQuadTree::new(Vector2::new(1024, 768), 2);
    let balls = vec![collider(1, 2000, 2000, 16, 16)];
    let walls = vec![collider(2, 2004, 2000, 16, 16)];
    let events: Vec<OnCollision<Ball, Wall>> = check_collisions(&tree, &balls, &walls);
    assert!(events.is_empty());
}

#[test]
fn spatial_index_holds_each_entity_in_every_node_it_touches() {
    let tree = StaticQuadTree::new(Vector2::new(1024, 768), 4);
    let walls = vec![collider(2, 10, 0, 16, 16), collider(3, -500, -370, 4, 4), collider(4, 12, 2, 2, 2)];
    let index = build_spatial_index(&tree, &walls);
    let mut nodes: Vec<usize> = index.keys().copied().collect();
    nodes.sort();
    assert_eq!(nodes, vec![0, 1, 2, 4, 5, 9, 13, 91, 135, 147, 257, 261, 265]);
    let first = (EntityRef { bits: 2 }, rect(2, -8, 18, 8));
    let second = (EntityRef { bits: 3 }, rect(-502, -372, -498, -368));
    let third = (EntityRef { bits: 4 }, rect(11, 1, 13, 3));
    assert_eq!(index[&0], vec![first, second, third]);
    assert_eq!(index[&2], vec![first]);
    assert_eq!(index[&4], vec![first, third]);
    assert_eq!(index[&13], vec![second]);
    assert_eq!(index[&265], vec![first, third]);
}

#[test]
fn collisions_along_a_walk_follow_its_order() {
    let mut index = HashMap::new();
    index.insert(
        3usize,
        vec![(EntityRef { bits: 10 }, rect(0, 0, 4, 4)), (EntityRef { bits: 11 }, rect(50, 50, 60, 60))],
    );
    index.insert(
        8usize,
        vec![(EntityRef { bits: 1 }, rect(0, 0, 4, 4)), (EntityRef { bits: 12 }, rect(4, 4, 5, 5))],
    );
    let mut events: Vec<OnCollision<Ball, Wall>> = vec![OnCollision::new(
        EntityRef { bits: 7 },
        EntityRef { bits: 8 },
    )];
    collisions_along(EntityRef { bits: 1 }, &rect(1, 1, 4, 4), &vec![8, 5, 3], &index, &mut events);
    assert_eq!(pairs(&events), vec![(7, 8), (1, 12), (1, 10)]);
    collisions_along(EntityRef { bits: 1 }, &rect(1, 1, 4, 4), &vec![3, 8], &index, &mut events);
    assert_eq!(pairs(&events), vec![(7, 8), (1, 12), (1, 10), (1, 10), (1, 12)]);
}
