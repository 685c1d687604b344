use pathgraph::{Cartesian, Vertex};

#[test]
fn test_cartesian() {
    let a = Cartesian::new(1, 1);
    let b = Cartesian::new(2, 2);
    let c = Cartesian::new(3, 3);

    assert_eq!(&a + &b, c);
    assert_eq!(a + b, c);
}

#[test]
fn neigh4_order_around_origin() {
    let n = Cartesian::new(0, 0).neigh4();
    assert_eq!(
        n,
        vec![
            Cartesian::new(-1, 0),
            Cartesian::new(0, 1),
            Cartesian::new(1, 0),
            Cartesian::new(0, -1),
        ]
    );
}

#[test]
fn neigh8_clockwise_from_west() {
    let n = Cartesian::new(5, -5).neigh8();
    assert_eq!(
        n,
        vec![
            Cartesian::new(4, -5),
            Cartesian::new(4, -4),
            Cartesian::new(5, -4),
            Cartesian::new(6, -4),
            Cartesian::new(6, -5),
            Cartesian::new(6, -6),
            Cartesian::new(5, -6),
            Cartesian::new(4, -6),
        ]
    );
}

#[test]
fn manhattan_distance_example() {
    let a = Cartesian::new(1, 1);
    let b = Cartesian::new(4, 5);
    assert_eq!(a.manhattan_distance(&b), 7);
    assert_eq!(b.manhattan_distance(&a), 7);
    assert_eq!(a.manhattan_distance(&a), 0);
}

#[test]
fn manhattan_distance_extremes() {
    let a = Cartesian::new(i32::MIN, i32::MIN);
    let b = Cartesian::new(i32::MAX, i32::MAX);
    assert_eq!(a.manhattan_distance(&b), 2 * (u32::MAX as usize));
}

#[test]
fn addition_commutes_and_associates() {
    let a = Cartesian::new(3, -7);
    let b = Cartesian::new(-10, 4);
    let c = Cartesian::new(100, 1);
    assert_eq!(a + b, b + a);
    assert_eq!((a + b) + c, a + (b + c));
    assert_eq!(a + b, Cartesian::new(-7, -3));
}

#[test]
fn addition_wraps_at_bounds() {
    let a = Cartesian::new(i32::MAX, 0);
    let b = Cartesian::new(1, 0);
    assert_eq!(a + b, Cartesian::new(i32::MIN, 0));
}

#[test]
fn grid_vertex_neighbours_and_distance() {
    let c = Cartesian::new(0, 0);
    let n: Vec<Cartesian> = c.neighbors().iter().map(|r| **r).collect();
    assert_eq!(n, c.neigh4());
    assert_eq!(c.distance(&Cartesian::new(-2, 3)), 5);
}

#[test]
fn grid_vertex_stays_on_grid() {
    let c = Cartesian::new(i32::MIN, i32::MAX);
    let n: Vec<Cartesian> = c.neighbors().iter().map(|r| **r).collect();
    assert_eq!(n, vec![Cartesian::new(i32::MIN + 1, i32::MAX), Cartesian::new(i32::MIN, i32::MAX - 1)]);
}
