use path_finding::Position;
use path_finding::diagonal_distance;
use path_finding::euclidean_distance;
use path_finding::manhattan_distance;

#[test]
fn manhattan_distance_values() {
    assert_eq!(0, manhattan_distance(&Position::new(2, 2), &Position::new(2, 2)));
    assert_eq!(70, manhattan_distance(&Position::new(0, 0), &Position::new(3, 4)));
    assert_eq!(70, manhattan_distance(&Position::new(3, 4), &Position::new(0, 0)));
    assert_eq!(50, manhattan_distance(&Position::new(-1, -2), &Position::new(2, 0)));
}

#[test]
fn diagonal_distance_values() {
    assert_eq!(0, diagonal_distance(&Position::new(1, 1), &Position::new(1, 1)));
    assert_eq!(40, diagonal_distance(&Position::new(0, 0), &Position::new(3, 4)));
    assert_eq!(30, diagonal_distance(&Position::new(2, 2), &Position::new(5, 1)));
    assert_eq!(40, diagonal_distance(&Position::new(4, 4), &Position::new(0, 0)));
}

#[test]
fn euclidean_distance_values() {
    assert_eq!(0, euclidean_distance(&Position::new(0, 0), &Position::new(0, 0)));
    // a 3-4-5 triangle is exact
    assert_eq!(50, euclidean_distance(&Position::new(0, 0), &Position::new(3, 4)));
    assert_eq!(10, euclidean_distance(&Position::new(0, 0), &Position::new(1, 0)));
    // 10 * sqrt(2) = 14.14... rounds to 14
    assert_eq!(14, euclidean_distance(&Position::new(0, 0), &Position::new(1, 1)));
    // 10 * sqrt(5) = 22.36... rounds to 22
    assert_eq!(22, euclidean_distance(&Position::new(0, 0), &Position::new(2, 1)));
    // 10 * sqrt(8) = 28.28... rounds to 28
    assert_eq!(28, euclidean_distance(&Position::new(-1, -1), &Position::new(1, 1)));
}

#[test]
fn euclidean_never_exceeds_manhattan() {
    for x in -4..5 {
        for y in -4..5 {
            let a = Position::new(0, 0);
            let b = Position::new(x, y);
            assert!(euclidean_distance(&a, &b) <= manhattan_distance(&a, &b));
            assert!(diagonal_distance(&a, &b) <= manhattan_distance(&a, &b));
        }
    }
}
