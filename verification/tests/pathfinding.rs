use gridquest::map::Grid;
use gridquest::pathfinding::{adjacent, best_match, find_path};
use gridquest::shared::{Point, Tile};

fn parse_grid(input: &str) -> Grid {
    let lines: Vec<String> = input
        .lines()
        .map(str::trim)
        .filter(|line| !line.is_empty())
        .map(|line| line.chars().filter(|ch| *ch != '|').collect())
        .collect();
    let height = lines.len();
    let width = lines.iter().map(|l| l.chars().count()).max().unwrap_or(0);
    let mut grid = Grid::new(width, height);
    for (y, line) in lines.iter().enumerate() {
        for (x, ch) in line.chars().enumerate() {
            let tile = match ch {
                '█' => Tile::Wall,
                'C' => Tile::Current,
                'X' => Tile::NPC,
                _ => Tile::Empty,
            };
            grid.set(&Point { x, y }, tile);
        }
    }
    grid
}

///
/// The route between `1,1` and `4,4` on an open floor takes exactly
/// 6 points: the Manhattan distance, no diagonal steps.
///
///     0,0 1,0 2,0 3,0 4,0
///     0,1 1,1 2,1 3,1 4,1
///     0,2 1,2 2,2 3,2 4,2
///     0,3 1,3 2,3 3,3 4,3
///     0,4 1,4 2,4 3,4 4,4
///
#[test]
fn it_should_find_best_route_between_points() {
    let example = "
        █     █
        █ S   █
        █     █
        █     █
        █    E█
    ";

    let start = Point { x: 1, y: 1 };
    let end = Point { x: 4, y: 4 };

    assert_eq!(find_path(&parse_grid(example), start, end).len(), 6);
}

#[test]
fn it_should_go_around_walls() {
    let example = "
        █    ███
        █S █   █
        █  ███ █
        █ █E   █
        █  █████
    ";

    // a start or goal that sits on a wall admits no route at all
    let start = Point { x: 0, y: 1 };
    let end = Point { x: 2, y: 3 };
    assert_eq!(find_path(&parse_grid(example), start, end).len(), 0);

    // from the S marker to the E marker the maze forces the long
    // detour over the top: 12 points
    let start = Point { x: 1, y: 1 };
    let end = Point { x: 3, y: 3 };
    assert_eq!(find_path(&parse_grid(example), start, end).len(), 12);
}

/// A route may never enter a cell occupied by the player or another
/// NPC: with the goal itself sitting on an NPC, no route exists.
#[test]
fn it_ignores_character_and_other_npc_when_finding_route() {
    let example = "
        ████████
        █  XX  █
        █S C E █
        █  XX  █
        █  ██  █
        ████████
    ";

    let start = Point { x: 0, y: 1 };
    let end = Point { x: 4, y: 1 };

    assert_eq!(find_path(&parse_grid(example), start, end).len(), 0);
}

/// Occupied cells block a route; clearing the obstacle makes the same
/// search succeed, recomputed from scratch.
#[test]
fn route_recomputes_when_obstacle_removed() {
    let example = "
        ████████
        █  XX  █
        █S C E █
        █  XX  █
        █  ██  █
        ████████
    ";

    let start = Point { x: 1, y: 2 };
    let end = Point { x: 5, y: 2 };

    let blocked = parse_grid(example);
    assert_eq!(find_path(&blocked, start, end).len(), 0);

    let mut cleared = parse_grid(example);
    cleared.set(&Point { x: 3, y: 2 }, Tile::Empty);
    let route = find_path(&cleared, start, end);
    assert_eq!(route.len(), 4);
    // goal-first: the front is the goal, the back the step nearest the start
    assert_eq!(route[0], end);
    assert_eq!(route[route.len() - 1], Point { x: 2, y: 2 });
    for p in &route {
        assert_ne!(cleared.get(p), Tile::NPC);
        assert_ne!(cleared.get(p), Tile::Current);
        assert_ne!(cleared.get(p), Tile::Wall);
    }
}

/// On a five-by-five fully empty grid the route from (1,1) to (4,4)
/// takes exactly 6 points: the Manhattan distance, no diagonals.
#[test]
fn open_grid_route_has_manhattan_length() {
    let grid = Grid::new(5, 5);
    let route = find_path(&grid, Point { x: 1, y: 1 }, Point { x: 4, y: 4 });
    assert_eq!(route.len(), 6);
    assert_eq!(route[0], Point { x: 4, y: 4 });
}

/// An interior cell offers all four neighbors, in the order down,
/// right, left, up; cells on the zero boundaries offer fewer; walls
/// are never offered.
#[test]
fn adjacency_offers_non_wall_neighbors() {
    let mut grid = Grid::new(3, 3);
    let interior = adjacent(&grid, &Point { x: 1, y: 1 });
    assert_eq!(
        interior,
        vec![
            Point { x: 1, y: 2 },
            Point { x: 2, y: 1 },
            Point { x: 0, y: 1 },
            Point { x: 1, y: 0 },
        ]
    );

    // at the origin only down and right stay non-negative
    let corner = adjacent(&grid, &Point { x: 0, y: 0 });
    assert_eq!(corner, vec![Point { x: 0, y: 1 }, Point { x: 1, y: 0 }]);

    // a wall neighbor is dropped
    grid.set(&Point { x: 1, y: 2 }, Tile::Wall);
    let filtered = adjacent(&grid, &Point { x: 1, y: 1 });
    assert_eq!(
        filtered,
        vec![Point { x: 2, y: 1 }, Point { x: 0, y: 1 }, Point { x: 1, y: 0 }]
    );

    // past the declared bounds the ground reads Unknown, not Wall,
    // so only the zero boundaries shrink the candidate set
    let edge = adjacent(&grid, &Point { x: 2, y: 1 });
    assert_eq!(edge.len(), 4);
}

/// The nearest open cell wins, and a candidate already visited is
/// never returned.
#[test]
fn best_match_skips_visited_candidates() {
    let mut grid = Grid::new(3, 3);
    grid.set(&Point { x: 1, y: 1 }, Tile::Current);

    let none_visited: Vec<Point> = Vec::new();
    let (cell, route) = best_match(&grid, Point { x: 1, y: 1 }, &none_visited).unwrap();
    assert_eq!(cell, Point { x: 0, y: 1 });
    assert_eq!(route.len(), 1);

    let visited = vec![Point { x: 0, y: 1 }];
    let (cell, route) = best_match(&grid, Point { x: 1, y: 1 }, &visited).unwrap();
    assert!(!visited.contains(&cell));
    assert_eq!(cell, Point { x: 1, y: 0 });
    assert_eq!(route.len(), 1);
}
