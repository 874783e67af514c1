use spatial_index::coord::Coord;
use spatial_index::index::SpatialIndex;
use spatial_index::point_set::Point;
use spatial_index::TransformMode;

fn pt(id: u64, x: i64, y: i64) -> (Point, bool) {
    (Point { id, coord: Coord { x, y, z: 0 } }, true)
}

fn ids_sorted(points: &[Point]) -> Vec<u64> {
    let mut v: Vec<u64> = points.iter().map(|p| p.id).collect();
    v.sort();
    v
}

#[test]
fn empty_index_queries() {
    let idx = SpatialIndex::new(2);
    assert_eq!(idx.size(), 0);
    assert!(idx.nearest_neighbour(Coord { x: 3, y: 4, z: 0 }).is_none());
    let within = idx.within_distance(Coord { x: 0, y: 0, z: 0 }, 100);
    assert!(within.is_empty());
}

#[test]
fn three_point_scenario() {
    let mut idx = SpatialIndex::new(2);
    let changes = vec![pt(1, 0, 0), pt(2, 10, 0), pt(3, 0, 10)];
    idx.update(&changes, &vec![]);
    assert_eq!(idx.size(), 3);

    let nearest = idx.nearest_neighbour(Coord { x: 1, y: 1, z: 0 }).unwrap();
    assert_eq!(nearest.id, 1);
    assert_eq!(nearest.coord, Coord { x: 0, y: 0, z: 0 });

    // radius 10 is inclusive, so the points at distance exactly 10 are in
    let all = idx.within_distance(Coord { x: 0, y: 0, z: 0 }, 10);
    assert_eq!(ids_sorted(&all), vec![1, 2, 3]);

    let near_only = idx.within_distance(Coord { x: 0, y: 0, z: 0 }, 5);
    assert_eq!(ids_sorted(&near_only), vec![1]);
}

#[test]
fn removal_is_respected_after_rebuild() {
    let mut idx = SpatialIndex::new(2);
    idx.update(&vec![pt(1, 0, 0), pt(2, 10, 0), pt(3, 0, 10)], &vec![]);
    // remove B (id 2); the remaining changes no longer carry it
    idx.update(&vec![pt(1, 0, 0), pt(3, 0, 10)], &vec![2]);
    assert_eq!(idx.size(), 2);
    let nearest = idx.nearest_neighbour(Coord { x: 10, y: 0, z: 0 }).unwrap();
    assert_ne!(nearest.id, 2);
    // distance to A is 10, to C is sqrt(200): A wins
    assert_eq!(nearest.id, 1);
    let within = idx.within_distance(Coord { x: 10, y: 0, z: 0 }, 10);
    assert_eq!(ids_sorted(&within), vec![1]);
    assert!(idx.resolve(2).is_none());
}

#[test]
fn update_is_idempotent_for_identical_batches() {
    let mut idx = SpatialIndex::new(2);
    idx.update(&vec![pt(1, 0, 0), pt(2, 10, 0), pt(3, 0, 10)], &vec![]);
    let changes = vec![pt(1, 0, 0), pt(3, 0, 10)];
    let removed = vec![2u64];
    idx.update(&changes, &removed);
    let n1 = idx.nearest_neighbour(Coord { x: 7, y: 2, z: 0 });
    let w1 = idx.within_distance(Coord { x: 0, y: 0, z: 0 }, 20);
    let s1 = idx.size();
    idx.update(&changes, &removed);
    let n2 = idx.nearest_neighbour(Coord { x: 7, y: 2, z: 0 });
    let w2 = idx.within_distance(Coord { x: 0, y: 0, z: 0 }, 20);
    let s2 = idx.size();
    assert_eq!(n1, n2);
    assert_eq!(w1, w2);
    assert_eq!(s1, s2);
}

#[test]
fn nearest_tie_break_is_deterministic() {
    let mut idx = SpatialIndex::new(2);
    idx.update(&vec![pt(1, 1, 0), pt(2, -1, 0)], &vec![]);
    // both points are at distance 1 from the origin
    let first = idx.nearest_neighbour(Coord { x: 0, y: 0, z: 0 }).unwrap();
    let second = idx.nearest_neighbour(Coord { x: 0, y: 0, z: 0 }).unwrap();
    assert_eq!(first, second);
    // rebuilding from the same input order keeps the same winner
    let mut again = SpatialIndex::new(2);
    again.update(&vec![pt(1, 1, 0), pt(2, -1, 0)], &vec![]);
    let third = again.nearest_neighbour(Coord { x: 0, y: 0, z: 0 }).unwrap();
    assert_eq!(first, third);
}

#[test]
fn upsert_moves_a_point() {
    let mut idx = SpatialIndex::new(2);
    idx.update(&vec![pt(1, 0, 0), pt(2, 100, 100)], &vec![]);
    let n = idx.nearest_neighbour(Coord { x: 90, y: 90, z: 0 }).unwrap();
    assert_eq!(n.id, 2);
    // the same identifier moves far away; the batch re-asserts both points
    idx.update(&vec![pt(1, 0, 0), (Point { id: 2, coord: Coord { x: -100, y: -100, z: 0 } }, true)], &vec![]);
    assert_eq!(idx.size(), 2);
    let n2 = idx.nearest_neighbour(Coord { x: 90, y: 90, z: 0 }).unwrap();
    assert_eq!(n2.id, 1);
    assert_eq!(idx.resolve(2), Some(Coord { x: -100, y: -100, z: 0 }));
}

#[test]
fn generations_count_removals() {
    let mut idx = SpatialIndex::new(2);
    assert_eq!(idx.generation(7), 0);
    idx.update(&vec![pt(7, 1, 2)], &vec![]);
    assert_eq!(idx.generation(7), 0);
    idx.update(&vec![], &vec![7]);
    assert_eq!(idx.generation(7), 1);
    // removing an absent identifier is a no-op
    idx.update(&vec![], &vec![7]);
    assert_eq!(idx.generation(7), 1);
    // the handle comes back reused; its generation tells it apart
    idx.update(&vec![pt(7, 3, 4)], &vec![]);
    assert_eq!(idx.generation(7), 1);
    idx.update(&vec![], &vec![7]);
    assert_eq!(idx.generation(7), 2);
}

#[test]
fn three_dimensional_queries() {
    let mut idx = SpatialIndex::new(3);
    let a = (Point { id: 1, coord: Coord { x: 0, y: 0, z: 0 } }, true);
    let b = (Point { id: 2, coord: Coord { x: 0, y: 0, z: 9 } }, true);
    let c = (Point { id: 3, coord: Coord { x: 4, y: 4, z: 4 } }, true);
    idx.update(&vec![a, b, c], &vec![]);
    let n = idx.nearest_neighbour(Coord { x: 0, y: 0, z: 7 }).unwrap();
    assert_eq!(n.id, 2);
    let w = idx.within_distance(Coord { x: 0, y: 0, z: 0 }, 7);
    assert_eq!(ids_sorted(&w), vec![1, 3]);
}

#[test]
fn zero_radius_is_inclusive() {
    let mut idx = SpatialIndex::new(2);
    idx.update(&vec![pt(1, 5, 5), pt(2, 6, 5)], &vec![]);
    let w = idx.within_distance(Coord { x: 5, y: 5, z: 0 }, 0);
    assert_eq!(ids_sorted(&w), vec![1]);
}

#[test]
fn far_coordinates_still_answer() {
    let limit: i64 = 0x4000_0000;
    let mut idx = SpatialIndex::new(3);
    let a = (Point { id: 1, coord: Coord { x: limit, y: limit, z: limit } }, true);
    let b = (Point { id: 2, coord: Coord { x: -limit, y: -limit, z: -limit } }, true);
    idx.update(&vec![a, b], &vec![]);
    let n = idx.nearest_neighbour(Coord { x: limit, y: limit, z: limit - 1 }).unwrap();
    assert_eq!(n.id, 1);
    // the radius bound spans the whole valid cube
    let w = idx.within_distance(Coord { x: 0, y: 0, z: 0 }, 4_000_000_000);
    assert_eq!(ids_sorted(&w), vec![1, 2]);
}

#[test]
fn resolve_follows_liveness() {
    let mut idx = SpatialIndex::new(2);
    idx.update(&vec![pt(5, 2, 3)], &vec![]);
    assert_eq!(idx.resolve(5), Some(Coord { x: 2, y: 3, z: 0 }));
    assert!(idx.resolve(6).is_none());
    idx.update(&vec![], &vec![5]);
    assert!(idx.resolve(5).is_none());
}

#[test]
fn transform_mode_defaults_to_local_transform() {
    assert!(matches!(TransformMode::default(), TransformMode::Transform));
    let copied: TransformMode = TransformMode::GlobalTransform;
    assert!(matches!(copied, TransformMode::GlobalTransform));
}
