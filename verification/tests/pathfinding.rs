use std::collections::BTreeSet;
use mdminecraft_world::pathfinding::{GridPos, astar_path_4dir};

#[test]
fn astar_returns_straight_path_in_open_space() {
    let start = GridPos::new(0, 0);
    let goal = GridPos::new(3, 0);
    let path = astar_path_4dir(start, goal, |_| true, 1024).expect("path should exist");
    assert_eq!(
        path,
        vec![
            GridPos::new(0, 0),
            GridPos::new(1, 0),
            GridPos::new(2, 0),
            GridPos::new(3, 0),
        ]
    );
}

#[test]
fn astar_tie_breaking_is_deterministic_around_symmetric_obstacle() {
    let start = GridPos::new(0, 0);
    let goal = GridPos::new(2, 0);
    let blocked = BTreeSet::from([GridPos::new(1, 0)]);
    let path = astar_path_4dir(
        start,
        goal,
        |p| !blocked.contains(&p) && (-8..=8).contains(&p.x) && (-8..=8).contains(&p.z),
        4096,
    )
    .expect("path should exist");

    // Two shortest paths exist (detouring north or south); the deterministic ordering chooses one.
    assert_eq!(
        path,
        vec![
            GridPos::new(0, 0),
            GridPos::new(0, -1),
            GridPos::new(1, -1),
            GridPos::new(2, -1),
            GridPos::new(2, 0),
        ]
    );
}
