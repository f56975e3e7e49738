use gridquest::game::Game;
use gridquest::shared::{Direction, ParsedMap, Point, Tile};

/// A bordered rectangle: wall cells all around, everything else empty.
fn border_walls(w: usize, h: usize) -> Vec<(Point, (u8, (u8, u8)))> {
    let mut cells = Vec::new();
    for x in 0..w {
        for y in 0..h {
            if x == 0 || y == 0 || x == w - 1 || y == h - 1 {
                cells.push((Point { x, y }, (0, (0, 0))));
            }
        }
    }
    cells
}

/// A player on a bordered five-by-five floor, spawned at (1,1) facing
/// right: two presses of move-right walk to (2,1) because (3,1) is a
/// wall, and a third press still leaves the player at (2,1).
#[test]
fn end_to_end_two_steps_right_then_blocked() {
    let mut cells = border_walls(5, 5);
    cells.push((Point { x: 3, y: 1 }, (0, (0, 0))));
    let pm = ParsedMap {
        area: 0,
        part: 0,
        grid: cells,
        max: (5, 5),
        player: (1, 1, 2),
        props: Vec::new(),
    };
    let mut game = Game::new(vec![pm]);
    assert_eq!(game.map.current, Point { x: 1, y: 1 });
    assert_eq!(game.map.direction, Direction::Right);

    game.move_player(&67);
    game.move_player(&67);
    assert_eq!(game.map.current, Point { x: 2, y: 1 });

    game.move_player(&67);
    assert_eq!(game.map.current, Point { x: 2, y: 1 });

    // the vacated cell is empty again, the occupied one is the player
    assert_eq!(game.map.grid.get(&Point { x: 1, y: 1 }), Tile::Empty);
    assert_eq!(game.map.grid.get(&Point { x: 2, y: 1 }), Tile::Current);
}

/// A key for a new direction only turns the token; a second press in
/// the same direction advances it.
#[test]
fn first_press_turns_second_press_moves() {
    let pm = ParsedMap {
        area: 0,
        part: 0,
        grid: border_walls(5, 5),
        max: (5, 5),
        player: (1, 1, 2),
        props: Vec::new(),
    };
    let mut game = Game::new(vec![pm]);

    game.move_player(&66);
    assert_eq!(game.map.direction, Direction::Down);
    assert_eq!(game.map.current, Point { x: 1, y: 1 });

    game.move_player(&66);
    assert_eq!(game.map.current, Point { x: 1, y: 2 });
}

/// The two linked areas of the warp scenarios: the first holds a warp
/// at (3,1) to the second and an NPC whose spawn range pins its target
/// to its own cell; the second holds a warp at (0,1) back to the
/// first.
fn linked_areas() -> Vec<ParsedMap> {
    let mut first = border_walls(5, 5);
    first.push((Point { x: 3, y: 1 }, (3, (1, 0))));
    first.push((Point { x: 1, y: 2 }, (4, (7, 0))));
    let mut second = border_walls(5, 5);
    second.push((Point { x: 0, y: 1 }, (3, (0, 0))));
    vec![
        ParsedMap {
            area: 0,
            part: 0,
            grid: first,
            max: (5, 5),
            player: (1, 1, 2),
            props: vec![(7, ((1, 1), (2, 2)))],
        },
        ParsedMap {
            area: 1,
            part: 0,
            grid: second,
            max: (5, 5),
            player: (2, 2, 2),
            props: Vec::new(),
        },
    ]
}

/// Warping away clears the whole NPC path cache; coming back fills it
/// afresh for the re-entered area instead of resuming stale routes.
#[test]
fn warp_clears_cache_and_reentry_refreshes() {
    let mut game = Game::new(linked_areas());
    // the NPC's range pins its target to its own cell, so the game
    // starts with exactly one cached route
    assert_eq!(game.pathfinding.len(), 1);
    let key: u64 = 7 * 65536;
    assert_eq!(game.pathfinding.get(key).unwrap(), &vec![Point { x: 1, y: 2 }]);

    // step onto the warp at (3,1): (2,1) then (3,1)
    game.move_player(&67);
    game.move_player(&67);
    assert_eq!(game.map.current, Point { x: 2, y: 2 });

    // the destination has no NPCs: the cache holds nothing of the
    // vacated area
    assert_eq!(game.pathfinding.len(), 0);

    // walk back through the warp at (0,1)
    game.move_player(&68);
    game.move_player(&68);
    game.move_player(&65);
    game.move_player(&65);
    game.move_player(&68);
    game.move_player(&68);
    // restored to the point recorded when the area was left
    assert_eq!(game.map.current, Point { x: 2, y: 1 });

    // re-entering computed a fresh route for the NPC
    assert_eq!(game.pathfinding.len(), 1);
    assert_eq!(game.pathfinding.get(key).unwrap(), &vec![Point { x: 1, y: 2 }]);
}

/// Returning to a visited area restores the player to the exact point
/// recorded when it was left, not to the area's default spawn.
#[test]
fn return_warp_restores_recorded_point() {
    let mut game = Game::new(linked_areas());

    game.move_player(&67);
    game.move_player(&67);
    // arrived in the second area at its default spawn
    assert_eq!(game.map.current, Point { x: 2, y: 2 });

    // leave a trace: walk down one cell, then take the warp home
    game.move_player(&66);
    game.move_player(&66);
    assert_eq!(game.map.current, Point { x: 2, y: 3 });
    game.move_player(&65);
    game.move_player(&65);
    game.move_player(&65);
    game.move_player(&68);
    game.move_player(&68);
    game.move_player(&68);
    // back in the first area, restored to where it was left: (2,1),
    // not the default spawn (1,1)
    assert_eq!(game.map.current, Point { x: 2, y: 1 });

    // and forward again: the second area restores the point it was
    // left from, (1,1), not its default spawn (2,2)
    game.move_player(&67);
    game.move_player(&67);
    assert_eq!(game.map.current, Point { x: 1, y: 1 });
}

/// A warp whose destination area has no definition is a silent no-op.
#[test]
fn warp_to_unknown_area_is_ignored() {
    let mut cells = border_walls(5, 5);
    cells.push((Point { x: 2, y: 1 }, (3, (9, 9))));
    let pm = ParsedMap {
        area: 0,
        part: 0,
        grid: cells,
        max: (5, 5),
        player: (1, 1, 2),
        props: Vec::new(),
    };
    let mut game = Game::new(vec![pm]);
    game.move_player(&67);
    assert_eq!(game.map.current, Point { x: 1, y: 1 });
    assert_eq!(game.map.direction, Direction::Right);
}

/// An NPC step onto an empty cell moves it and consumes its route; a
/// step onto anything else throws the whole route away and computes a
/// fresh one.
#[test]
fn npc_steps_and_collisions_recompute_routes() {
    let mut cells = border_walls(5, 5);
    cells.push((Point { x: 1, y: 1 }, (4, (7, 0))));
    let pm = ParsedMap {
        area: 0,
        part: 0,
        grid: cells,
        max: (5, 5),
        player: (3, 3, 2),
        props: vec![(7, ((1, 1), (2, 2)))],
    };
    let mut game = Game::new(vec![pm]);
    let key: u64 = 7 * 65536;
    // the pinned target (1,2) is one step away
    assert_eq!(game.pathfinding.get(key).unwrap(), &vec![Point { x: 1, y: 2 }]);

    // the ticker pops the back of every pending route
    let steps = game.pop_npc_steps();
    assert_eq!(steps, vec![((7, 0, 0), Point { x: 1, y: 2 })]);
    assert_eq!(game.pathfinding.get(key).unwrap().len(), 0);

    // applying the step moves the NPC and refreshes its dry route
    game.move_npc(&(7, 0, 0), &Point { x: 1, y: 2 });
    assert_eq!(game.map.grid.get(&Point { x: 1, y: 1 }), Tile::Empty);
    assert_eq!(game.map.grid.get(&Point { x: 1, y: 2 }), Tile::NPC);
    assert_eq!(game.pathfinding.get(key).unwrap(), &vec![Point { x: 1, y: 2 }]);

    // a step into a wall discards the route and recomputes it
    game.move_npc(&(7, 0, 0), &Point { x: 0, y: 0 });
    assert_eq!(game.map.grid.get(&Point { x: 1, y: 2 }), Tile::NPC);
    assert_eq!(game.pathfinding.get(key).unwrap(), &vec![Point { x: 1, y: 2 }]);

    // a step recorded for another area is ignored outright
    game.move_npc(&(7, 4, 4), &Point { x: 2, y: 2 });
    assert_eq!(game.map.grid.get(&Point { x: 2, y: 2 }), Tile::Empty);
}

/// Interaction reports the tile one step ahead of the player, and
/// nothing when that cell lies outside the declared bounds.
#[test]
fn interact_reports_faced_tile() {
    let pm = ParsedMap {
        area: 0,
        part: 0,
        grid: border_walls(5, 5),
        max: (5, 5),
        player: (1, 1, 0),
        props: Vec::new(),
    };
    let game = Game::new(vec![pm]);
    // facing up from (1,1): the border wall at (1,0)
    assert_eq!(game.interact(), Some(Tile::Wall));

    let pm = ParsedMap {
        area: 0,
        part: 0,
        grid: Vec::new(),
        max: (2, 2),
        player: (0, 0, 3),
        props: Vec::new(),
    };
    let game = Game::new(vec![pm]);
    // facing left from (0,0): no cell exists there
    assert_eq!(game.interact(), None);
}

/// Without a definition keyed (0,0) the game starts on an empty
/// default area and every move is rejected.
#[test]
fn missing_initial_definition_yields_empty_area() {
    let mut game = Game::new(Vec::new());
    assert_eq!(game.map.current, Point { x: 0, y: 0 });
    game.move_player(&67);
    game.move_player(&67);
    assert_eq!(game.map.current, Point { x: 0, y: 0 });
    assert_eq!(game.interact(), None);
}
