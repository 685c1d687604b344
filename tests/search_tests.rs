use pathgraph::{astar_search, bfs_search_all, count_paths, Cartesian, LatticePoint, Vertex};
use std::rc::Rc;

fn lattice(x: u16, y: u16) -> Rc<LatticePoint> {
    Rc::new(LatticePoint::new(x, y))
}

fn unwrap_path<T: Copy>(p: &[Rc<T>]) -> Vec<T> {
    p.iter().map(|r| **r).collect()
}

#[test]
fn astar_grid_path_length_is_manhattan_plus_one() {
    let start = Cartesian::new(0, 0);
    let goal = Cartesian::new(3, 4);
    let path = astar_search(Rc::new(start), Rc::new(goal)).expect("a path on an open grid");
    assert_eq!(path.len(), start.manhattan_distance(&goal) + 1);
    assert_eq!(*path[0], goal);
    assert_eq!(*path[path.len() - 1], start);
    for w in path.windows(2) {
        assert_eq!(w[0].manhattan_distance(&w[1]), 1);
    }
}

#[test]
fn astar_grid_negative_direction() {
    let start = Cartesian::new(2, -1);
    let goal = Cartesian::new(-3, -6);
    let path = astar_search(Rc::new(start), Rc::new(goal)).unwrap();
    assert_eq!(path.len(), 11);
}

#[test]
fn astar_start_is_goal() {
    let start = Cartesian::new(7, 7);
    let path = astar_search(Rc::new(start), Rc::new(start)).unwrap();
    assert_eq!(unwrap_path(&path), vec![start]);
}

#[test]
fn astar_runs_alike_twice() {
    let start = Rc::new(Cartesian::new(0, 0));
    let goal = Rc::new(Cartesian::new(2, 3));
    let first = unwrap_path(&astar_search(start.clone(), goal.clone()).unwrap());
    let second = unwrap_path(&astar_search(start, goal).unwrap());
    assert_eq!(first, second);
}

#[test]
fn astar_lattice_unreachable_is_none() {
    assert!(astar_search(lattice(1, 1), lattice(3, 3)).is_none());
}

#[test]
fn astar_lattice_reaches_origin() {
    let path = astar_search(lattice(2, 3), lattice(0, 0)).unwrap();
    assert_eq!(path.len(), 6);
    assert_eq!(*path[0], LatticePoint::new(0, 0));
    assert_eq!(*path[5], LatticePoint::new(2, 3));
}

#[test]
fn bfs_lattice_finds_every_lattice_path() {
    let start = LatticePoint::new(2, 2);
    let goal = LatticePoint::new(0, 0);
    let paths = bfs_search_all(Rc::new(start), Rc::new(goal));
    assert_eq!(paths.len(), 6);
    for p in &paths {
        assert_eq!(*p[0], goal);
        assert_eq!(*p[p.len() - 1], start);
        for w in p.windows(2) {
            let next: Vec<LatticePoint> = w[1].neighbors().iter().map(|r| **r).collect();
            assert!(next.contains(&w[0]));
        }
    }
}

#[test]
fn bfs_lattice_intermediate_goal() {
    let start = LatticePoint::new(1, 1);
    let goal = LatticePoint::new(1, 0);
    let paths = bfs_search_all(Rc::new(start), Rc::new(goal));
    assert_eq!(paths.len(), 1);
    assert_eq!(unwrap_path(&paths[0]), vec![goal, start]);
}

#[test]
fn bfs_lattice_unreachable_is_empty() {
    let paths = bfs_search_all(lattice(1, 1), lattice(3, 3));
    assert!(paths.is_empty());
}

#[test]
fn bfs_start_is_goal() {
    let paths = bfs_search_all(lattice(4, 4), lattice(4, 4));
    assert_eq!(paths.len(), 1);
    assert_eq!(unwrap_path(&paths[0]), vec![LatticePoint::new(4, 4)]);
}

#[test]
fn count_paths_chain_has_one_leaf() {
    assert_eq!(count_paths(lattice(3, 0)), 1);
    assert_eq!(count_paths(lattice(0, 0)), 1);
}

#[test]
fn count_paths_reconverging_lattice() {
    assert_eq!(count_paths(lattice(2, 2)), 6);
    assert_eq!(count_paths(lattice(3, 2)), 10);
    assert_eq!(count_paths(lattice(10, 10)), 184756);
}

#[test]
fn astar_path_has_no_repeated_vertex() {
    let path = unwrap_path(&astar_search(Rc::new(Cartesian::new(-2, 1)), Rc::new(Cartesian::new(3, -4))).unwrap());
    for i in 0..path.len() {
        for j in (i + 1)..path.len() {
            assert_ne!(path[i], path[j]);
        }
    }
}

#[test]
fn bfs_paths_have_no_repeated_vertex() {
    let paths = bfs_search_all(lattice(3, 2), lattice(0, 0));
    assert_eq!(paths.len(), 10);
    for p in &paths {
        let v = unwrap_path(p);
        for i in 0..v.len() {
            for j in (i + 1)..v.len() {
                assert_ne!(v[i], v[j]);
            }
        }
    }
}
