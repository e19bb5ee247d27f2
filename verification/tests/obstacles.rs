use grid_astar::{GridConfig, InvalidArgument, ObstacleStore};

fn config_for(size: i32, ratio: f64) -> GridConfig {
    GridConfig::new(size, ratio.to_bits(), 0).unwrap()
}

#[test]
fn obstacle_list_of_another_length_is_rejected() {
    let config = config_for(10, 0.03);
    assert_eq!(config.expected_obstacle_count(), 3);
    assert_eq!(
        ObstacleStore::from_obstacles(&config, vec![(1, 1), (2, 2)]).err(),
        Some(InvalidArgument::ObstacleCountMismatch { len: 2, expected: 3 })
    );
    assert_eq!(
        ObstacleStore::from_obstacles(&config, vec![(1, 1), (2, 2), (3, 3), (4, 4)]).err(),
        Some(InvalidArgument::ObstacleCountMismatch { len: 4, expected: 3 })
    );
    assert_eq!(
        ObstacleStore::from_obstacles(&config, Vec::new()).err(),
        Some(InvalidArgument::ObstacleCountMismatch { len: 0, expected: 3 })
    );
}

#[test]
fn obstacle_outside_the_grid_is_rejected() {
    let config = config_for(10, 0.02);
    for bad in [(10, 3), (3, 10), (-1, 3), (3, -1), (i32::MAX, 0), (0, i32::MIN)] {
        assert_eq!(
            ObstacleStore::from_obstacles(&config, vec![(4, 4), bad]).err(),
            Some(InvalidArgument::ObstacleOutOfBounds)
        );
    }
}

#[test]
fn obstacle_on_start_or_goal_is_rejected() {
    let config = config_for(10, 0.02);
    assert_eq!(
        ObstacleStore::from_obstacles(&config, vec![(0, 0), (4, 4)]).err(),
        Some(InvalidArgument::ObstacleOnEndpoint)
    );
    assert_eq!(
        ObstacleStore::from_obstacles(&config, vec![(4, 4), (9, 9)]).err(),
        Some(InvalidArgument::ObstacleOnEndpoint)
    );
}

#[test]
fn repeated_obstacle_is_rejected() {
    let config = config_for(10, 0.03);
    assert_eq!(
        ObstacleStore::from_obstacles(&config, vec![(4, 4), (5, 5), (4, 4)]).err(),
        Some(InvalidArgument::DuplicateObstacle)
    );
}

#[test]
fn length_is_checked_before_the_entries() {
    let config = config_for(10, 0.02);
    assert_eq!(
        ObstacleStore::from_obstacles(&config, vec![(0, 0), (50, 50), (0, 0)]).err(),
        Some(InvalidArgument::ObstacleCountMismatch { len: 3, expected: 2 })
    );
}

#[test]
fn first_offending_entry_decides_the_error() {
    let config = config_for(10, 0.03);
    assert_eq!(
        ObstacleStore::from_obstacles(&config, vec![(4, 4), (4, 4), (20, 20)]).err(),
        Some(InvalidArgument::DuplicateObstacle)
    );
    assert_eq!(
        ObstacleStore::from_obstacles(&config, vec![(9, 9), (20, 20), (4, 4)]).err(),
        Some(InvalidArgument::ObstacleOnEndpoint)
    );
    assert_eq!(
        ObstacleStore::from_obstacles(&config, vec![(20, 20), (0, 0), (0, 0)]).err(),
        Some(InvalidArgument::ObstacleOutOfBounds)
    );
}

#[test]
fn valid_obstacles_are_stored() {
    let config = config_for(10, 0.03);
    let store = ObstacleStore::from_obstacles(&config, vec![(0, 9), (9, 0), (5, 6)]).ok().unwrap();
    assert_eq!(store.size(), 10);
    assert!(store.contains(0, 9));
    assert!(store.contains(9, 0));
    assert!(store.contains(5, 6));
    assert!(!store.contains(6, 5));
    assert!(!store.contains(0, 0));
    assert!(!store.contains(9, 9));
    assert!(!store.contains(-1, 9));
    assert!(!store.contains(0, 10));
}

#[test]
fn empty_list_is_valid_for_ratio_zero() {
    let config = config_for(10, 0.0);
    let store = ObstacleStore::from_obstacles(&config, Vec::new()).ok().unwrap();
    for x in 0..10 {
        for y in 0..10 {
            assert!(!store.contains(x, y));
        }
    }
}
