use terramap::cell::Cell;
use terramap::delaunay::divide;
use terramap::distance_carree;
use terramap::maths::Vec2u;

#[test]
fn squared_distance_is_exact() {
    assert_eq!(distance_carree((0, 0), (3, 4)), 25);
    assert_eq!(distance_carree((10, 60), (10, 10)), 2500);
    assert_eq!(distance_carree((7, 7), (7, 7)), 0);
}

#[test]
fn divide_splits_rows_at_the_middle_column() {
    // two rows of five columns: the left section takes the first three of
    // each row, the right section the remaining two
    let points: Vec<usize> = (0..10).collect();
    let (left, right) = divide(&points, 5, 2);
    assert_eq!(left, vec![0, 1, 2, 5, 6, 7]);
    assert_eq!(right, vec![3, 4, 8, 9]);
}

#[test]
fn divide_even_width() {
    let points: Vec<usize> = (0..8).collect();
    let (left, right) = divide(&points, 4, 2);
    assert_eq!(left, vec![0, 1, 4, 5]);
    assert_eq!(right, vec![2, 3, 6, 7]);
}

#[test]
fn vec2u_packs_bit_patterns() {
    let v = Vec2u::from_bits(1078530011, 1065353216);
    assert_eq!(v.x, 1078530011);
    assert_eq!(v.y, 1065353216);
    assert_eq!(v, Vec2u { x: 1078530011, y: 1065353216 });
}

#[test]
fn cell_starts_uncollapsed() {
    let c = Cell::new(vec![0, 1, 2]);
    assert_eq!(c.options, vec![0, 1, 2]);
    assert!(!c.collapsed);
    let c2 = c.clone();
    assert_eq!(c2.options, c.options);
}
