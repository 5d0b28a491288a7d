use advent_of_rust_2022::astar::{key_of, neighbor};
use advent_of_rust_2022::{find_path, manhattan_distance, PathNode, Point, RowGrid};

fn open_grid(width: i32, height: i32) -> impl Fn(&Point, &Point) -> Option<u32> {
    move |_from: &Point, to: &Point| {
        if to.x >= 0 && to.x < width && to.y >= 0 && to.y < height {
            Some(1)
        } else {
            None
        }
    }
}

fn is_step(a: &Point, b: &Point) -> bool {
    manhattan_distance(a.x, a.y, b.x, b.y) == 1
}

#[test]
fn from_pos_sets_the_coordinates() {
    let p = Point::from_pos(3, -4);
    assert_eq!(p.x, 3);
    assert_eq!(p.y, -4);
    assert_eq!(p, Point { x: 3, y: -4 });
}

#[test]
fn manhattan_distance_sums_the_coordinate_distances() {
    assert_eq!(manhattan_distance(0, 0, 0, 0), 0);
    assert_eq!(manhattan_distance(0, 0, 4, 4), 8);
    assert_eq!(manhattan_distance(4, 4, 0, 0), 8);
    assert_eq!(manhattan_distance(-2, 5, 3, -1), 11);
    assert_eq!(manhattan_distance(1, 1, 1, 7), 6);
}

#[test]
fn manhattan_distance_at_the_limits() {
    assert_eq!(manhattan_distance(i32::MIN, 0, i32::MAX, 0), u32::MAX);
    assert_eq!(manhattan_distance(i32::MIN, 0, i32::MAX - 1, 0), u32::MAX - 1);
    assert_eq!(manhattan_distance(i32::MIN, 0, i32::MAX, 1), u32::MAX);
    assert_eq!(
        manhattan_distance(i32::MIN, i32::MIN, i32::MAX, i32::MAX),
        u32::MAX
    );
}

#[test]
fn path_node_holds_its_costs() {
    let node = PathNode::new(&Point::from_pos(1, 2), 3, 4);
    assert_eq!(node.point, Point::from_pos(1, 2));
    assert_eq!(node.g_cost, 3);
    assert_eq!(node.h_cost, 4);
    assert_eq!(node.f_cost(), 7);
}

#[test]
fn f_cost_at_the_limit() {
    let p = Point::from_pos(0, 0);
    assert_eq!(PathNode::new(&p, u32::MAX - 1, 1).f_cost(), u32::MAX);
    assert_eq!(PathNode::new(&p, u32::MAX, 1).f_cost(), u32::MAX);
    assert_eq!(PathNode::new(&p, u32::MAX, u32::MAX).f_cost(), u32::MAX);
}

#[test]
fn path_across_an_open_five_by_five_grid_has_eight_moves() {
    let start = Point::from_pos(0, 0);
    let goal = Point::from_pos(4, 4);
    let path = find_path(&start, &goal, open_grid(5, 5)).unwrap();
    assert_eq!(path.len(), 9);
    assert_eq!(path[0], start);
    assert_eq!(path[8], goal);
    for pair in path.windows(2) {
        assert!(is_step(&pair[0], &pair[1]));
    }
}

#[test]
fn path_length_on_open_grids_is_the_manhattan_distance() {
    let corners = [(0, 0), (6, 0), (0, 3), (6, 3), (2, 1), (5, 2)];
    for from in corners {
        for to in corners {
            let start = Point::from_pos(from.0, from.1);
            let goal = Point::from_pos(to.0, to.1);
            let path = find_path(&start, &goal, open_grid(7, 4)).unwrap();
            let moves = (path.len() - 1) as u32;
            assert_eq!(moves, manhattan_distance(from.0, from.1, to.0, to.1));
            assert_eq!(path[0], start);
            assert_eq!(path[path.len() - 1], goal);
        }
    }
}

#[test]
fn path_from_a_point_to_itself_is_that_point() {
    let p = Point::from_pos(2, 2);
    assert_eq!(find_path(&p, &p, open_grid(5, 5)), Some(vec![p]));
    assert_eq!(find_path(&p, &p, |_, _| None), Some(vec![p]));
}

#[test]
fn path_in_a_corridor_is_the_corridor() {
    let start = Point::from_pos(0, 0);
    let goal = Point::from_pos(3, 0);
    let path = find_path(&start, &goal, open_grid(4, 1));
    assert_eq!(
        path,
        Some(vec![
            Point::from_pos(0, 0),
            Point::from_pos(1, 0),
            Point::from_pos(2, 0),
            Point::from_pos(3, 0),
        ])
    );
}

#[test]
fn enclosed_goal_gives_no_path() {
    let start = Point::from_pos(0, 0);
    let goal = Point::from_pos(2, 2);
    let walls = [(1, 2), (3, 2), (2, 1), (2, 3)];
    let cost = |_from: &Point, to: &Point| {
        let inside = to.x >= 0 && to.x < 5 && to.y >= 0 && to.y < 5;
        if inside && !walls.contains(&(to.x, to.y)) {
            Some(1)
        } else {
            None
        }
    };
    assert_eq!(find_path(&start, &goal, cost), None);
}

#[test]
fn nothing_passable_gives_no_path() {
    let start = Point::from_pos(0, 0);
    let goal = Point::from_pos(1, 0);
    assert_eq!(find_path(&start, &goal, |_, _| None), None);
}

#[test]
fn path_goes_around_a_wall() {
    let mut grid = RowGrid::with_width(5);
    grid.push_row(vec!['.', '.', '.', '.', '.']);
    grid.push_row(vec!['.', '#', '#', '#', '.']);
    grid.push_row(vec!['.', '.', '.', '#', '.']);
    let cost = |_from: &Point, to: &Point| {
        if to.x < 0 || to.y < 0 {
            return None;
        }
        match grid.cell(to.x as usize, to.y as usize) {
            Some('.') => Some(1),
            _ => None,
        }
    };
    let start = Point::from_pos(2, 2);
    let goal = Point::from_pos(4, 2);
    let path = find_path(&start, &goal, cost).unwrap();
    assert_eq!(path.len(), 11);
    assert_eq!(path[0], start);
    assert_eq!(path[10], goal);
    for pair in path.windows(2) {
        assert!(is_step(&pair[0], &pair[1]));
    }
    for p in &path {
        assert_eq!(grid.cell(p.x as usize, p.y as usize), Some(&'.'));
    }
}

#[test]
fn path_takes_the_cheaper_detour() {
    // Row 0 is costly to enter, row 1 is cheap: the cheap way costs 6, the
    // straight way along row 0 costs 20.
    let cost = |_from: &Point, to: &Point| {
        if to.x < 0 || to.x > 4 || to.y < 0 || to.y > 1 {
            None
        } else if to.y == 0 && to.x != 4 {
            Some(5)
        } else {
            Some(1)
        }
    };
    let start = Point::from_pos(0, 0);
    let goal = Point::from_pos(4, 0);
    let path = find_path(&start, &goal, cost).unwrap();
    assert_eq!(
        path,
        vec![
            Point::from_pos(0, 0),
            Point::from_pos(0, 1),
            Point::from_pos(1, 1),
            Point::from_pos(2, 1),
            Point::from_pos(3, 1),
            Point::from_pos(4, 1),
            Point::from_pos(4, 0),
        ]
    );
}

#[test]
fn one_way_steps_are_respected() {
    // Steps to the right are free to take, steps to the left are not.
    let cost = |from: &Point, to: &Point| {
        if to.y == 0 && to.x >= 0 && to.x <= 3 && to.x > from.x {
            Some(1)
        } else {
            None
        }
    };
    let left = Point::from_pos(0, 0);
    let right = Point::from_pos(3, 0);
    assert_eq!(find_path(&left, &right, cost).map(|p| p.len()), Some(4));
    assert_eq!(find_path(&right, &left, cost), None);
}

#[test]
fn search_at_the_edge_of_the_plane_stays_inside() {
    let start = Point::from_pos(i32::MAX, i32::MAX);
    let goal = Point::from_pos(i32::MAX - 1, i32::MAX);
    let cost = |_from: &Point, to: &Point| {
        if to.x >= i32::MAX - 1 && to.y >= i32::MAX - 1 {
            Some(1)
        } else {
            None
        }
    };
    assert_eq!(find_path(&start, &goal, cost), Some(vec![start, goal]));
    let far = Point::from_pos(i32::MIN, i32::MIN);
    assert_eq!(find_path(&start, &far, cost), None);
}

#[test]
fn steps_without_cost_end_the_search_too() {
    let cost = |_from: &Point, to: &Point| {
        if to.x >= 0 && to.x < 3 && to.y >= 0 && to.y < 3 {
            Some(0)
        } else {
            None
        }
    };
    let start = Point::from_pos(0, 0);
    let goal = Point::from_pos(2, 2);
    let path = find_path(&start, &goal, cost).unwrap();
    assert_eq!(path[0], start);
    assert_eq!(path[path.len() - 1], goal);
    for pair in path.windows(2) {
        assert!(is_step(&pair[0], &pair[1]));
    }
    let outside = Point::from_pos(5, 5);
    assert_eq!(find_path(&start, &outside, cost), None);
}

#[test]
fn costs_at_the_limit_do_not_stop_the_search() {
    let cost = |_from: &Point, to: &Point| {
        if to.y == 0 && to.x >= 0 && to.x <= 3 {
            Some(u32::MAX)
        } else {
            None
        }
    };
    let start = Point::from_pos(0, 0);
    let goal = Point::from_pos(3, 0);
    assert_eq!(find_path(&start, &goal, cost).map(|p| p.len()), Some(4));
}

#[test]
fn neighbor_steps_left_right_up_down() {
    let p = Point::from_pos(3, -2);
    assert_eq!(neighbor(p, 0), Some(Point::from_pos(2, -2)));
    assert_eq!(neighbor(p, 1), Some(Point::from_pos(4, -2)));
    assert_eq!(neighbor(p, 2), Some(Point::from_pos(3, -3)));
    assert_eq!(neighbor(p, 3), Some(Point::from_pos(3, -1)));
}

#[test]
fn neighbor_beyond_the_plane_is_absent() {
    let low = Point::from_pos(i32::MIN, i32::MIN);
    let high = Point::from_pos(i32::MAX, i32::MAX);
    assert_eq!(neighbor(low, 0), None);
    assert_eq!(neighbor(low, 2), None);
    assert_eq!(neighbor(low, 1), Some(Point::from_pos(i32::MIN + 1, i32::MIN)));
    assert_eq!(neighbor(low, 3), Some(Point::from_pos(i32::MIN, i32::MIN + 1)));
    assert_eq!(neighbor(high, 1), None);
    assert_eq!(neighbor(high, 3), None);
    assert_eq!(neighbor(high, 0), Some(Point::from_pos(i32::MAX - 1, i32::MAX)));
    assert_eq!(neighbor(high, 2), Some(Point::from_pos(i32::MAX, i32::MAX - 1)));
}

#[test]
fn keys_tell_points_apart() {
    assert_eq!(key_of(&Point::from_pos(i32::MIN, i32::MIN)), 0);
    assert_eq!(key_of(&Point::from_pos(i32::MIN, i32::MIN + 1)), 1);
    assert_eq!(key_of(&Point::from_pos(i32::MIN + 1, i32::MIN)), 1 << 32);
    assert_eq!(key_of(&Point::from_pos(0, 0)), (1 << 63) + (1 << 31));
    assert_eq!(key_of(&Point::from_pos(i32::MAX, i32::MAX)), u64::MAX);
    let points = [(0, 0), (0, 1), (1, 0), (-1, 0), (0, -1), (1, 1), (-1, -1)];
    for a in points {
        for b in points {
            let same = key_of(&Point::from_pos(a.0, a.1)) == key_of(&Point::from_pos(b.0, b.1));
            assert_eq!(same, a == b);
        }
    }
}
