use grid_astar::cell_map::CellMap;
use grid_astar::{
    find_path_core, heuristic, native_find_path, reconstruct_path, GridConfig, InvalidArgument, ObstacleStore,
    RustPathfinder, SearchTelemetry,
};
use std::collections::{HashSet, VecDeque};

fn telemetry(nodes_evaluated: u64, heap_pushes: u64, heap_pops: u64, neighbors_checked: u64) -> SearchTelemetry {
    SearchTelemetry { nodes_evaluated, heap_pushes, heap_pops, neighbors_checked }
}

fn ratio_for(size: i32, count: usize) -> f64 {
    let area = (size as f64) * (size as f64);
    let mut ratio = (count as f64) / area;
    while ((area * ratio).floor() as usize) < count {
        ratio = f64::from_bits(ratio.to_bits() + 1);
    }
    ratio
}

fn shortest_distance(size: i32, obstacles: &[(i32, i32)]) -> Option<usize> {
    let blocked: HashSet<(i32, i32)> = obstacles.iter().copied().collect();
    let mut seen: HashSet<(i32, i32)> = HashSet::new();
    let mut queue: VecDeque<((i32, i32), usize)> = VecDeque::new();
    seen.insert((0, 0));
    queue.push_back(((0, 0), 0));
    while let Some(((x, y), d)) = queue.pop_front() {
        if (x, y) == (size - 1, size - 1) {
            return Some(d);
        }
        for (dx, dy) in [(1, 0), (-1, 0), (0, 1), (0, -1)] {
            let n = (x + dx, y + dy);
            if n.0 < 0 || n.1 < 0 || n.0 >= size || n.1 >= size || blocked.contains(&n) {
                continue;
            }
            if seen.insert(n) {
                queue.push_back((n, d + 1));
            }
        }
    }
    None
}

fn scattered_obstacles(size: i32, count: usize, seed: u64) -> Vec<(i32, i32)> {
    let mut state = seed.wrapping_mul(2862933555777941757).wrapping_add(3037000493);
    let mut taken: HashSet<(i32, i32)> = HashSet::new();
    let mut list = Vec::new();
    while list.len() < count {
        state = state.wrapping_mul(6364136223846793005).wrapping_add(1442695040888963407);
        let x = ((state >> 33) % (size as u64)) as i32;
        state = state.wrapping_mul(6364136223846793005).wrapping_add(1442695040888963407);
        let y = ((state >> 33) % (size as u64)) as i32;
        if (x, y) == (0, 0) || (x, y) == (size - 1, size - 1) {
            continue;
        }
        if taken.insert((x, y)) {
            list.push((x, y));
        }
    }
    list
}

fn check_route(size: i32, obstacles: &[(i32, i32)], path: &[(i32, i32)]) {
    assert_eq!(path.first(), Some(&(0, 0)));
    assert_eq!(path.last(), Some(&(size - 1, size - 1)));
    let blocked: HashSet<(i32, i32)> = obstacles.iter().copied().collect();
    let mut seen: HashSet<(i32, i32)> = HashSet::new();
    for cell in path {
        assert!(cell.0 >= 0 && cell.0 < size && cell.1 >= 0 && cell.1 < size);
        assert!(!blocked.contains(cell));
        assert!(seen.insert(*cell));
    }
    for pair in path.windows(2) {
        let dx = (pair[0].0 - pair[1].0).abs();
        let dy = (pair[0].1 - pair[1].1).abs();
        assert_eq!(dx + dy, 1);
    }
}

#[test]
fn open_grid_of_size_10_gives_the_known_route_and_counters() {
    let (path, evaluated, counters) = native_find_path(10, 0.0f64.to_bits(), 0, None).ok().unwrap();
    let mut expected = Vec::new();
    for y in 0..10 {
        expected.push((0, y));
    }
    for x in 1..10 {
        expected.push((x, 9));
    }
    assert_eq!(path, Some(expected));
    assert_eq!(evaluated, 100);
    assert_eq!(counters, telemetry(100, 100, 100, 358));
}

#[test]
fn open_grid_route_has_2n_minus_1_cells() {
    for size in [10, 11, 17, 40, 125] {
        let (path, evaluated, counters) =
            native_find_path(size, 0.0f64.to_bits(), 3, Some(Vec::new())).ok().unwrap();
        let path = path.unwrap();
        assert_eq!(path.len(), (2 * size - 1) as usize);
        assert!(evaluated <= (size as u64) * (size as u64));
        assert_eq!(counters.nodes_evaluated, evaluated);
        check_route(size, &[], &path);
    }
}

#[test]
fn wall_with_one_gap_is_passed_through_the_gap() {
    let obstacles: Vec<(i32, i32)> = (0..10).filter(|x| *x != 7).map(|x| (x, 5)).collect();
    let (path, evaluated, counters) =
        native_find_path(10, 0.09f64.to_bits(), 0, Some(obstacles)).ok().unwrap();
    let expected = vec![
        (0, 0), (0, 1), (0, 2), (0, 3), (0, 4), (1, 4), (2, 4), (3, 4), (4, 4), (5, 4), (6, 4), (7, 4), (7, 5),
        (7, 6), (7, 7), (7, 8), (7, 9), (8, 9), (9, 9),
    ];
    assert_eq!(path, Some(expected));
    assert_eq!(evaluated, 63);
    assert_eq!(counters, telemetry(63, 67, 63, 223));
}

#[test]
fn winding_grid_gives_the_known_route_and_counters() {
    let obstacles = vec![
        (1, 0), (1, 1), (1, 2), (3, 9), (3, 8), (3, 7), (3, 6), (3, 5), (3, 4), (3, 3), (3, 2), (5, 0), (5, 1),
        (5, 2), (5, 3), (5, 4), (5, 5), (5, 6), (7, 9), (7, 8), (7, 7), (7, 6), (7, 5), (7, 4), (7, 3), (2, 4),
        (8, 1),
    ];
    let (path, evaluated, counters) =
        native_find_path(10, 0.27f64.to_bits(), 0, Some(obstacles.clone())).ok().unwrap();
    let expected = vec![
        (0, 0), (0, 1), (0, 2), (0, 3), (1, 3), (2, 3), (2, 2), (2, 1), (3, 1), (4, 1), (4, 2), (4, 3), (4, 4),
        (4, 5), (4, 6), (4, 7), (5, 7), (6, 7), (6, 6), (6, 5), (6, 4), (6, 3), (6, 2), (7, 2), (8, 2), (8, 3),
        (8, 4), (8, 5), (8, 6), (8, 7), (8, 8), (8, 9), (9, 9),
    ];
    assert_eq!(path, Some(expected));
    assert_eq!(evaluated, 66);
    assert_eq!(counters, telemetry(66, 69, 66, 232));
}

#[test]
fn full_row_of_obstacles_leaves_no_route() {
    let obstacles: Vec<(i32, i32)> = (0..10).map(|x| (x, 5)).collect();
    let (path, evaluated, counters) =
        native_find_path(10, 0.1f64.to_bits(), 0, Some(obstacles)).ok().unwrap();
    assert_eq!(path, None);
    assert_eq!(evaluated, 50);
    assert_eq!(counters, telemetry(50, 50, 50, 180));
}

#[test]
fn full_column_of_obstacles_leaves_no_route() {
    let obstacles: Vec<(i32, i32)> = (0..10).map(|y| (3, y)).collect();
    let (path, _, counters) = native_find_path(10, 0.1f64.to_bits(), 0, Some(obstacles)).ok().unwrap();
    assert_eq!(path, None);
    assert_eq!(counters.heap_pops, counters.nodes_evaluated);
    assert_eq!(counters.nodes_evaluated, 30);
}

#[test]
fn routes_are_valid_and_shortest_on_scattered_grids() {
    for (size, count, seed) in [(10, 20, 1u64), (10, 35, 2), (12, 40, 3), (20, 120, 4), (31, 300, 5), (50, 900, 6)] {
        for round in 0..20u64 {
            let ratio = ratio_for(size, count);
            let obstacles = scattered_obstacles(size, count, seed * 1000 + round);
            let (path, evaluated, counters) =
                native_find_path(size, ratio.to_bits(), 0, Some(obstacles.clone())).ok().unwrap();
            match (path, shortest_distance(size, &obstacles)) {
                (Some(path), Some(distance)) => {
                    check_route(size, &obstacles, &path);
                    assert_eq!(path.len(), distance + 1);
                },
                (None, None) => {},
                (found, distance) => panic!("route {:?} where the distance is {:?}", found, distance),
            }
            assert_eq!(counters.heap_pops, counters.nodes_evaluated);
            assert_eq!(counters.nodes_evaluated, evaluated);
            assert!(counters.heap_pushes >= counters.heap_pops);
            assert!(counters.neighbors_checked <= 4 * counters.nodes_evaluated);
        }
    }
}

#[test]
fn equal_arguments_give_equal_results() {
    let obstacles = scattered_obstacles(25, 150, 77);
    let ratio = ratio_for(25, 150).to_bits();
    let first = native_find_path(25, ratio, 1, Some(obstacles.clone())).ok().unwrap();
    let second = native_find_path(25, ratio, 1, Some(obstacles.clone())).ok().unwrap();
    assert_eq!(first, second);
    let other_seed = native_find_path(25, ratio, 2, Some(obstacles.clone())).ok().unwrap();
    assert_eq!(first, other_seed);
}

#[test]
fn order_of_the_obstacle_list_does_not_matter() {
    let obstacles = scattered_obstacles(25, 150, 78);
    let mut reversed = obstacles.clone();
    reversed.reverse();
    let ratio = ratio_for(25, 150).to_bits();
    let first = native_find_path(25, ratio, 1, Some(obstacles)).ok().unwrap();
    let second = native_find_path(25, ratio, 1, Some(reversed)).ok().unwrap();
    assert_eq!(first, second);
}

#[test]
fn pathfinder_can_be_searched_repeatedly() {
    let obstacles = scattered_obstacles(30, 200, 5);
    let ratio = ratio_for(30, 200).to_bits();
    let pathfinder = RustPathfinder::new(30, ratio, 9, Some(obstacles.clone())).ok().unwrap();
    let first = pathfinder.find_path();
    let second = pathfinder.find_path();
    assert_eq!(first, second);
    let single = native_find_path(30, ratio, 9, Some(obstacles)).ok().unwrap();
    assert_eq!(first, single);
    assert_eq!(pathfinder.config().size(), 30);
    assert_eq!(pathfinder.config().seed(), 9);
    assert_eq!(pathfinder.obstacles().size(), 30);
}

#[test]
fn pathfinder_fails_at_construction() {
    assert_eq!(RustPathfinder::new(9, 0.0f64.to_bits(), 0, None).err(), Some(InvalidArgument::SizeOutOfRange));
    assert_eq!(RustPathfinder::new(10, 0.5f64.to_bits(), 0, None).err(), Some(InvalidArgument::RatioOutOfRange));
    assert_eq!(
        RustPathfinder::new(10, 0.1f64.to_bits(), 0, None).err(),
        Some(InvalidArgument::ObstacleCountMismatch { len: 0, expected: 10 })
    );
    assert_eq!(
        RustPathfinder::new(10, 0.01f64.to_bits(), 0, Some(vec![(10, 0)])).err(),
        Some(InvalidArgument::ObstacleOutOfBounds)
    );
    assert_eq!(
        RustPathfinder::new(10, 0.01f64.to_bits(), 0, Some(vec![(0, 0)])).err(),
        Some(InvalidArgument::ObstacleOnEndpoint)
    );
    assert_eq!(
        RustPathfinder::new(10, 0.02f64.to_bits(), 0, Some(vec![(1, 0), (1, 0)])).err(),
        Some(InvalidArgument::DuplicateObstacle)
    );
}

#[test]
fn single_call_reports_the_same_errors() {
    assert_eq!(native_find_path(5001, 0.0f64.to_bits(), 0, None).err(), Some(InvalidArgument::SizeOutOfRange));
    assert_eq!(native_find_path(10, f64::NAN.to_bits(), 0, None).err(), Some(InvalidArgument::RatioOutOfRange));
    assert_eq!(
        native_find_path(10, 0.0f64.to_bits(), 0, Some(vec![(1, 1)])).err(),
        Some(InvalidArgument::ObstacleCountMismatch { len: 1, expected: 0 })
    );
    assert_eq!(
        native_find_path(10, 0.02f64.to_bits(), 0, Some(vec![(1, 1), (1, -1)])).err(),
        Some(InvalidArgument::ObstacleOutOfBounds)
    );
}

#[test]
fn core_search_takes_a_configuration_and_its_store() {
    let config = GridConfig::new(10, 0.01f64.to_bits(), 0).unwrap();
    let store = ObstacleStore::from_obstacles(&config, vec![(0, 1)]).ok().unwrap();
    let (path, evaluated, counters) = find_path_core(&config, &store);
    let path = path.unwrap();
    assert_eq!(path.len(), 19);
    assert_eq!(path[1], (1, 0));
    check_route(10, &[(0, 1)], &path);
    assert_eq!(evaluated, counters.nodes_evaluated);
}

#[test]
fn start_walled_in_ends_after_one_evaluation() {
    let (path, evaluated, counters) =
        native_find_path(10, 0.02f64.to_bits(), 0, Some(vec![(1, 0), (0, 1)])).ok().unwrap();
    assert_eq!(path, None);
    assert_eq!(evaluated, 1);
    assert_eq!(counters, telemetry(1, 1, 1, 2));
}

#[test]
fn larger_open_grid_is_searched() {
    let (path, evaluated, counters) = native_find_path(300, 0.0f64.to_bits(), 0, None).ok().unwrap();
    assert_eq!(path.unwrap().len(), 599);
    assert_eq!(evaluated, 90_000);
    assert_eq!(counters.heap_pushes, 90_000);
    assert_eq!(counters.neighbors_checked, 4 * 300 * 299 - 2);
}

#[test]
fn largest_grid_is_accepted() {
    let ratio = ratio_for(5000, 2).to_bits();
    let (walled, evaluated, counters) =
        native_find_path(5000, ratio, 0, Some(vec![(0, 1), (1, 0)])).ok().unwrap();
    assert_eq!(walled, None);
    assert_eq!(evaluated, 1);
    assert_eq!(counters, telemetry(1, 1, 1, 2));
    assert_eq!(
        native_find_path(5000, ratio, 0, Some(vec![(0, 1), (5000, 0)])).err(),
        Some(InvalidArgument::ObstacleOutOfBounds)
    );
}

#[test]
fn heuristic_is_the_manhattan_distance() {
    assert_eq!(heuristic((0, 0), (9, 9)), 18);
    assert_eq!(heuristic((9, 9), (0, 0)), 18);
    assert_eq!(heuristic((3, 7), (3, 7)), 0);
    assert_eq!(heuristic((2, 8), (9, 4)), 11);
    assert_eq!(heuristic((-5, 2), (5, -2)), 14);
}

#[test]
fn reconstruct_path_follows_predecessors_back_to_the_root() {
    let mut came_from: CellMap<(i32, i32)> = CellMap::new();
    came_from.insert(1, 0, (0, 0));
    came_from.insert(1, 1, (1, 0));
    came_from.insert(2, 1, (1, 1));
    came_from.insert(5, 5, (5, 4));
    assert_eq!(reconstruct_path(&came_from, (2, 1)), vec![(0, 0), (1, 0), (1, 1), (2, 1)]);
    assert_eq!(reconstruct_path(&came_from, (0, 0)), vec![(0, 0)]);
    assert_eq!(reconstruct_path(&came_from, (5, 5)), vec![(5, 4), (5, 5)]);
}

#[test]
fn cell_map_keeps_the_last_value_of_each_cell() {
    let mut map: CellMap<i32> = CellMap::new();
    assert_eq!(map.get(3, 4), None);
    map.insert(3, 4, 7);
    map.insert(4, 3, 8);
    map.insert(-1, i32::MAX, 9);
    map.insert(i32::MIN, 0, 10);
    assert_eq!(map.get(3, 4), Some(&7));
    assert_eq!(map.get(4, 3), Some(&8));
    assert_eq!(map.get(-1, i32::MAX), Some(&9));
    assert_eq!(map.get(i32::MIN, 0), Some(&10));
    assert_eq!(map.get(0, i32::MIN), None);
    map.insert(3, 4, 1);
    assert_eq!(map.get(3, 4), Some(&1));
}

#[test]
fn fresh_telemetry_is_all_zero() {
    assert_eq!(SearchTelemetry::new(), telemetry(0, 0, 0, 0));
}
