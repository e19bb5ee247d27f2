use grid_astar::error::decimal_string;
use grid_astar::InvalidArgument;

#[test]
fn each_error_names_its_rule() {
    assert_eq!(InvalidArgument::SizeOutOfRange.message(), "size must be between 10 and 5000");
    assert_eq!(InvalidArgument::RatioOutOfRange.message(), "obstacle_ratio must be between 0.0 and 0.5");
    assert_eq!(
        InvalidArgument::ObstacleCountMismatch { len: 2, expected: 30 }.message(),
        "obstacles length 2 does not match expected 30"
    );
    assert_eq!(
        InvalidArgument::ObstacleCountMismatch { len: 12499999, expected: 0 }.message(),
        "obstacles length 12499999 does not match expected 0"
    );
    assert_eq!(InvalidArgument::ObstacleOutOfBounds.message(), "obstacle coordinate out of bounds");
    assert_eq!(InvalidArgument::ObstacleOnEndpoint.message(), "obstacles cannot include start/goal");
    assert_eq!(InvalidArgument::DuplicateObstacle.message(), "duplicate obstacle coordinate");
    assert_eq!(InvalidArgument::BlankName.message(), "name must not be empty");
}

#[test]
fn decimal_numerals_are_written_without_leading_zeros() {
    for n in [0usize, 1, 9, 10, 11, 99, 100, 101, 1234567890, usize::MAX] {
        assert_eq!(decimal_string(n), format!("{}", n));
    }
    let mut state: u64 = 5;
    for _ in 0..10000 {
        state = state.wrapping_mul(6364136223846793005).wrapping_add(1442695040888963407);
        let n = (state >> (state % 60)) as usize;
        assert_eq!(decimal_string(n), format!("{}", n));
    }
}
