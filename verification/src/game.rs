use vstd::prelude::*;

use crate::map::{is_area_of, Area};
use crate::pathfinding::{find_path, has_route, route_ok};
use crate::shared::{rand_range, spec_dir_code, Direction, ParsedMap, Point, Tile};
use crate::table::Table;

verus! {

/// The static, immutable definition of one area, as the registry keeps
/// it: declared cells, bounds, default spawn, and NPC spawn ranges.
pub struct AreaDefinition {
    pub grid: Vec<(Point, (u8, (u8, u8)))>,
    pub max: (usize, usize),
    pub player: (usize, usize, u8),
    pub props: Vec<(u8, ((u8, u8), (u8, u8)))>,
}

/// A definition the registry can build an area from: its rectangle
/// fits the machine word and every spawn range is non-empty.
pub open spec fn def_ok(d: AreaDefinition) -> bool {
    &&& (d.max.0 as int) * (d.max.1 as int) <= usize::MAX as int
    &&& forall|j: int|
        0 <= j < d.props@.len() ==> (#[trigger] d.props@[j]).1.0.0 <= d.props@[j].1.0.1
            && d.props@[j].1.1.0 <= d.props@[j].1.1.1
}

/// The same soundness conditions, read off a parsed map.
pub open spec fn parsed_ok(pm: ParsedMap) -> bool {
    &&& (pm.max.0 as int) * (pm.max.1 as int) <= usize::MAX as int
    &&& forall|j: int|
        0 <= j < pm.props@.len() ==> (#[trigger] pm.props@[j]).1.0.0 <= pm.props@[j].1.0.1
            && pm.props@[j].1.1.0 <= pm.props@[j].1.1.1
}

/// The registry key of an (area, part) pair.
pub open spec fn area_key(a: u8, p: u8) -> u64 {
    ((a as int) * 256 + (p as int)) as u64
}

/// The cache key of an NPC's pending route in an (area, part) pair.
pub open spec fn cache_key(npc: u8, a: u8, p: u8) -> u64 {
    ((npc as int) * 65536 + (a as int) * 256 + (p as int)) as u64
}

/// Computes the registry key of an (area, part) pair.
fn area_key_of(a: u8, p: u8) -> (k: u64)
    ensures
        k == area_key(a, p),
        k < 0x10000,
{
    (a as u64) * 256 + (p as u64)
}

/// Computes the cache key of an NPC's route.
fn cache_key_of(npc: u8, a: u8, p: u8) -> (k: u64)
    ensures
        k == cache_key(npc, a, p),
        k < 0x1000000,
{
    (npc as u64) * 65536 + (a as u64) * 256 + (p as u64)
}

/// A cache key decodes back to the triple it was built from.
pub proof fn lemma_cache_key_injective(n1: u8, a1: u8, p1: u8, n2: u8, a2: u8, p2: u8)
    by (nonlinear_arith)
    requires
        cache_key(n1, a1, p1) == cache_key(n2, a2, p2),
    ensures
        n1 == n2 && a1 == a2 && p1 == p2,
{
}

/// One new binding stored by route assignment: a valid, goal-first
/// route for an NPC of the area, whose goal was drawn from that NPC's
/// spawn range.
pub open spec fn fresh_route_for(a: Area, cm: (u8, u8), k: u64, route: Vec<Point>) -> bool {
    exists|id: u64|
        {
            &&& #[trigger] a.npc@.dom().contains(id)
            &&& id < 256
            &&& k == cache_key(id as u8, cm.0, cm.1)
            &&& route@.len() > 0
            &&& route_ok(a.grid, a.npc@[id], route@)
            &&& a.props@.dom().contains(id)
            &&& a.props@[id].0.0 <= route@[0].x <= a.props@[id].0.1
            &&& a.props@[id].1.0 <= route@[0].y <= a.props@[id].1.1
        }
}

/// Whether a point lies in an NPC's inclusive spawn rectangle.
pub open spec fn in_range(rg: ((u8, u8), (u8, u8)), t: Point) -> bool {
    rg.0.0 <= t.x <= rg.0.1 && rg.1.0 <= t.y <= rg.1.1
}

/// Whether every point of an NPC's spawn rectangle can be routed to
/// from the NPC's current position: then no draw can be unreachable.
pub open spec fn range_reachable(a: Area, id: u64) -> bool {
    forall|t: Point| #[trigger] in_range(a.props@[id], t) ==> has_route(a.grid, a.npc@[id], t)
}

/// What a refresh owes one NPC: if it has a spawn range no draw from
/// which can miss, the cache holds a pending route under its key.
pub open spec fn route_assigned_for(a: Area, cm: (u8, u8), c: Map<u64, Vec<Point>>, id: u64) -> bool {
    a.props@.dom().contains(id) && range_reachable(a, id) ==> c.dom().contains(
        cache_key(id as u8, cm.0, cm.1),
    ) && c[cache_key(id as u8, cm.0, cm.1)]@.len() > 0
}

/// What a refresh owes the whole area: every NPC whose spawn range is
/// wholly reachable holds a pending route afterwards — an idle refresh
/// is not allowed.
pub open spec fn routes_assigned(a: Area, cm: (u8, u8), c: Map<u64, Vec<Point>>) -> bool {
    forall|id: u64| #[trigger] a.npc@.dom().contains(id) ==> route_assigned_for(a, cm, c, id)
}

/// What one round of route assignment may do to the cache: pending
/// routes survive untouched unless named stale; every other binding is
/// either a stale entry wiped empty or a fresh route for an NPC of the
/// area.
pub open spec fn refresh_post(
    a: Area,
    cm: (u8, u8),
    c0: Map<u64, Vec<Point>>,
    c1: Map<u64, Vec<Point>>,
    stale: Set<u64>,
) -> bool {
    &&& forall|k: u64|
        c0.dom().contains(k) && !stale.contains(k) && (#[trigger] c0[k])@.len() > 0
            ==> c1.dom().contains(k) && c1[k] == c0[k]
    &&& forall|k: u64|
        #[trigger] c1.dom().contains(k) ==> (c0.dom().contains(k) && !stale.contains(k) && c1[k]
            == c0[k]) || fresh_route_for(a, cm, k, c1[k]) || (stale.contains(k) && c1[k]@.len()
            == 0)
}

/// Inserting one fresh route keeps a refresh description valid, as
/// long as the key held no pending route before.
proof fn lemma_refresh_insert(
    a: Area,
    cm: (u8, u8),
    c0: Map<u64, Vec<Point>>,
    c1: Map<u64, Vec<Point>>,
    stale: Set<u64>,
    k: u64,
    v: Vec<Point>,
)
    requires
        refresh_post(a, cm, c0, c1, stale),
        fresh_route_for(a, cm, k, v),
        !(c0.dom().contains(k) && !stale.contains(k) && c0[k]@.len() > 0),
    ensures
        refresh_post(a, cm, c0, c1.insert(k, v), stale),
{
    let c2 = c1.insert(k, v);
    assert forall|kk: u64|
        c0.dom().contains(kk) && !stale.contains(kk) && (#[trigger] c0[kk])@.len() > 0
            implies c2.dom().contains(kk) && c2[kk] == c0[kk] by {
        assert(kk != k);
        assert(c1.dom().contains(kk) && c1[kk] == c0[kk]);
    }
    assert forall|kk: u64| #[trigger] c2.dom().contains(kk) implies (c0.dom().contains(kk)
        && !stale.contains(kk) && c2[kk] == c0[kk]) || fresh_route_for(a, cm, kk, c2[kk]) || (
    stale.contains(kk) && c2[kk]@.len() == 0) by {
        if kk != k {
            assert(c1.dom().contains(kk));
            assert(c2[kk] == c1[kk]);
        } else {
            assert(c2[kk] == v);
        }
    }
}

/// The registry the parsed definitions produce, keyed by (area, part);
/// later definitions of the same pair win.
pub open spec fn defs_of(s: Seq<ParsedMap>) -> Map<u64, AreaDefinition>
    decreases s.len(),
{
    if s.len() == 0 {
        Map::empty()
    } else {
        defs_of(s.drop_last()).insert(
            area_key(s.last().area, s.last().part),
            AreaDefinition {
                grid: s.last().grid,
                max: s.last().max,
                player: s.last().player,
                props: s.last().props,
            },
        )
    }
}

/// The whole game: the registry of area definitions, the key of the
/// active area, the active area itself, the per-area memory of the
/// player's last position, and the shared NPC path cache (goal-first
/// routes, consumed from the back).
pub struct Game {
    pub current_map: (u8, u8),
    pub entries: Table<Point>,
    pub map: Area,
    pub maps: Table<AreaDefinition>,
    pub pathfinding: Table<Vec<Point>>,
}

impl Game {
    /// The game's backing stores are sound: the active area is well
    /// formed, every stored definition can build an area, registry and
    /// entry keys fit two bytes, and cache keys fit three.
    pub open spec fn wf(&self) -> bool {
        &&& self.map.wf()
        &&& self.entries.wf()
        &&& self.maps.wf()
        &&& self.pathfinding.wf()
        &&& forall|k: u64| #[trigger] self.maps@.dom().contains(k) ==> def_ok(self.maps@[k])
        &&& forall|k: u64| #[trigger] self.pathfinding@.dom().contains(k) ==> k < 0x1000000
    }
}

/// Draws a wandering target from a spawn rectangle: up to ten retries
/// while the drawn cell is not `Empty`, after which the last draw is
/// accepted regardless.
#[verifier::loop_isolation(false)]
fn gen_point(grid: &crate::map::Grid, range: &((u8, u8), (u8, u8))) -> (r: Point)
    requires
        grid.wf(),
        range.0.0 <= range.0.1,
        range.1.0 <= range.1.1,
    ensures
        range.0.0 <= r.x <= range.0.1,
        range.1.0 <= r.y <= range.1.1,
{
    let mut attempts: u8 = 0;
    loop
        invariant
            attempts <= 11,
        decreases 11 - attempts,
    {
        let x = rand_range(range.0.0, range.0.1);
        let y = rand_range(range.1.0, range.1.1);
        let p = Point { x: x as usize, y: y as usize };
        if grid.get(&p) == Tile::Empty || attempts > 10 {
            return p;
        }
        attempts = attempts + 1;
    }
}

impl Game {
    /// (Re)assigns wandering routes: every NPC of the active area that
    /// has no pending route draws a target from its spawn range and,
    /// when the engine finds a route, stores it goal-first in the
    /// cache; NPCs whose draw is unreachable are left for the next
    /// refresh — but an NPC whose whole range is reachable always ends
    /// up with a pending route.
    #[verifier::loop_isolation(false)]
    #[verifier::rlimit(60)]
    pub fn new_path_for_npc(&mut self)
        requires
            old(self).wf(),
        ensures
            final(self).wf(),
            final(self).map == old(self).map,
            final(self).maps == old(self).maps,
            final(self).entries == old(self).entries,
            final(self).current_map == old(self).current_map,
            refresh_post(
                old(self).map,
                old(self).current_map,
                old(self).pathfinding@,
                final(self).pathfinding@,
                Set::empty(),
            ),
            routes_assigned(old(self).map, old(self).current_map, final(self).pathfinding@),
    {
        let ghost c0 = self.pathfinding@;
        let ghost a0 = old(self).map;
        let ghost cm0 = old(self).current_map;
        let ghost keys = old(self).map.npc.key_seq();
        proof {
            self.map.npc.lemma_keys_distinct();
            self.map.npc.lemma_dom_iff_key();
        }
        let n = self.map.npc.len();
        let mut i: usize = 0;
        while i < n
            invariant
                self.wf(),
                self.map == old(self).map,
                self.maps == old(self).maps,
                self.entries == old(self).entries,
                self.current_map == old(self).current_map,
                n == keys.len(),
                i <= n,
                refresh_post(
                    old(self).map,
                    old(self).current_map,
                    c0,
                    self.pathfinding@,
                    Set::empty(),
                ),
                forall|j: int|
                    0 <= j < i ==> route_assigned_for(a0, cm0, self.pathfinding@, #[trigger] keys[j]),
            decreases n - i,
        {
            let ghost cpre = self.pathfinding@;
            let id = self.map.npc.key_at(i);
            proof {
                assert(id < 256);
            }
            let key = cache_key_of(id as u8, self.current_map.0, self.current_map.1);
            let skip = match self.pathfinding.get(key) {
                Some(v) => v.len() > 0,
                None => false,
            };
            if !skip {
                let rg_opt = match self.map.props.get(id) {
                    Some(rg) => Some(*rg),
                    None => None,
                };
                match rg_opt {
                    Some(rg) => {
                        let target = gen_point(&self.map.grid, &rg);
                        let pos = *self.map.npc.val_at(i);
                        let route = find_path(&self.map.grid, pos, target);
                        if route.len() > 0 {
                            proof {
                                // a pending route for this key would have
                                // been kept and found by the skip check
                                if c0.dom().contains(key) && c0[key]@.len() > 0 {
                                    assert(self.pathfinding@[key] == c0[key]);
                                }
                                assert(fresh_route_for(
                                    old(self).map,
                                    old(self).current_map,
                                    key,
                                    route,
                                )) by {
                                    assert(old(self).map.npc@.dom().contains(id));
                                    assert(key == cache_key(
                                        id as u8,
                                        old(self).current_map.0,
                                        old(self).current_map.1,
                                    ));
                                    assert(route_ok(old(self).map.grid, old(self).map.npc@[id], route@));
                                }
                                lemma_refresh_insert(
                                    old(self).map,
                                    old(self).current_map,
                                    c0,
                                    self.pathfinding@,
                                    Set::empty(),
                                    key,
                                    route,
                                );
                            }
                            self.pathfinding.insert(key, route);
                            proof {
                                assert(self.pathfinding@[key]@.len() > 0);
                                assert(route_assigned_for(a0, cm0, self.pathfinding@, id));
                                // the insert touched no other NPC's key
                                assert forall|j: int| 0 <= j < i implies route_assigned_for(
                                    a0,
                                    cm0,
                                    self.pathfinding@,
                                    #[trigger] keys[j],
                                ) by {
                                    let idj = keys[j];
                                    if a0.props@.dom().contains(idj) && range_reachable(a0, idj) {
                                        assert(keys.contains(idj)) by {
                                            assert(keys[j] == idj);
                                        }
                                        assert(a0.npc@.dom().contains(idj));
                                        let kj = cache_key(idj as u8, cm0.0, cm0.1);
                                        if kj == key {
                                            lemma_cache_key_injective(
                                                idj as u8,
                                                cm0.0,
                                                cm0.1,
                                                id as u8,
                                                cm0.0,
                                                cm0.1,
                                            );
                                        }
                                        assert(self.pathfinding@[kj] == cpre[kj]);
                                    }
                                }
                            }
                        } else {
                            proof {
                                // an unreachable draw refutes whole-range
                                // reachability, so nothing is owed here
                                assert(route_assigned_for(a0, cm0, self.pathfinding@, id)) by {
                                    if a0.props@.dom().contains(id) && range_reachable(a0, id) {
                                        assert(rg == a0.props@[id]);
                                        assert(in_range(a0.props@[id], target));
                                        assert(has_route(a0.grid, a0.npc@[id], target));
                                    }
                                }
                            }
                        }
                    },
                    None => {
                        proof {
                            assert(!a0.props@.dom().contains(id));
                            assert(route_assigned_for(a0, cm0, self.pathfinding@, id));
                        }
                    },
                }
            } else {
                proof {
                    assert(self.pathfinding@.dom().contains(key)
                        && self.pathfinding@[key]@.len() > 0);
                    assert(route_assigned_for(a0, cm0, self.pathfinding@, id));
                }
            }
            proof {
                assert(id == keys[i as int]);
                assert forall|j: int| 0 <= j < i + 1 implies route_assigned_for(
                    a0,
                    cm0,
                    self.pathfinding@,
                    #[trigger] keys[j],
                ) by {
                }
            }
            i = i + 1;
        }
        proof {
            assert forall|id: u64| #[trigger] a0.npc@.dom().contains(id) implies route_assigned_for(
                a0,
                cm0,
                self.pathfinding@,
                id,
            ) by {
                assert(keys.contains(id));
                let j = choose|j: int| 0 <= j < keys.len() && keys[j] == id;
            }
        }
    }
}

/// The direction a movement key denotes, if any.
pub open spec fn key_dir(key: u8) -> Option<Direction> {
    if key == 65 {
        Some(Direction::Up)
    } else if key == 66 {
        Some(Direction::Down)
    } else if key == 67 {
        Some(Direction::Right)
    } else if key == 68 {
        Some(Direction::Left)
    } else {
        None
    }
}

/// The cell a movement key aims the player at: a key that differs from
/// the current facing only turns, as does a step that would leave the
/// non-negative quadrant (or wrap the machine word).
pub open spec fn step_toward(cur: Point, facing: Direction, d: Direction) -> Point {
    if facing != d {
        cur
    } else {
        match d {
            Direction::Up => if cur.y > 0 {
                Point { x: cur.x, y: (cur.y - 1) as usize }
            } else {
                cur
            },
            Direction::Down => if cur.y < usize::MAX {
                Point { x: cur.x, y: (cur.y + 1) as usize }
            } else {
                cur
            },
            Direction::Right => if cur.x < usize::MAX {
                Point { x: (cur.x + 1) as usize, y: cur.y }
            } else {
                cur
            },
            Direction::Left => if cur.x > 0 {
                Point { x: (cur.x - 1) as usize, y: cur.y }
            } else {
                cur
            },
        }
    }
}

/// The game after a pure turn: only the facing changes.
pub open spec fn turned(g0: Game, d: Direction) -> Game {
    Game {
        current_map: g0.current_map,
        entries: g0.entries,
        map: Area {
            grid: g0.map.grid,
            current: g0.map.current,
            direction: d,
            meta: g0.map.meta,
            npc: g0.map.npc,
            props: g0.map.props,
        },
        maps: g0.maps,
        pathfinding: g0.pathfinding,
    }
}

/// Everything a player key does to the game. An unknown key changes
/// nothing. A known key always sets the facing; it moves the player
/// only onto an `Empty` cell (swapping `Current` and `Empty`), warps
/// through a `Warp` cell whose metadata names a registered area
/// (recording the vacated position in the entries, rebuilding the
/// destination area at the remembered or default spawn, and replacing
/// the whole path cache with fresh routes for the new area), and is
/// rejected by any other cell.
pub open spec fn move_player_post(g0: Game, g1: Game, key: u8) -> bool {
    match key_dir(key) {
        None => g1 == g0,
        Some(d) => {
            let c = step_toward(g0.map.current, g0.map.direction, d);
            if c == g0.map.current {
                g1 == turned(g0, d)
            } else if g0.map.grid.tile_at(c) == Tile::Empty {
                &&& g1.map.direction == d
                &&& g1.map.current == c
                &&& g1.map.grid.spec_max_x() == g0.map.grid.spec_max_x()
                &&& g1.map.grid.spec_max_y() == g0.map.grid.spec_max_y()
                &&& forall|q: Point|
                    g1.map.grid.tile_at(q) == if q == c {
                        Tile::Current
                    } else if q == g0.map.current && g0.map.grid.in_bounds(q) {
                        Tile::Empty
                    } else {
                        g0.map.grid.tile_at(q)
                    }
                &&& g1.map.meta == g0.map.meta
                &&& g1.map.npc == g0.map.npc
                &&& g1.map.props == g0.map.props
                &&& g1.current_map == g0.current_map
                &&& g1.entries == g0.entries
                &&& g1.maps == g0.maps
                &&& g1.pathfinding == g0.pathfinding
            } else if g0.map.grid.tile_at(c) == Tile::Warp {
                match g0.map.spec_meta_at(c) {
                    None => g1 == turned(g0, d),
                    Some(dest) => {
                        let dk = area_key(dest.0, dest.1);
                        if g0.maps@.dom().contains(dk) {
                            let def = g0.maps@[dk];
                            let spawn = if g0.entries@.dom().contains(dk) {
                                (g0.entries@[dk].x, g0.entries@[dk].y, spec_dir_code(d))
                            } else {
                                def.player
                            };
                            &&& g1.current_map == dest
                            &&& g1.maps == g0.maps
                            &&& g1.entries@ == g0.entries@.insert(
                                area_key(g0.current_map.0, g0.current_map.1),
                                g0.map.current,
                            )
                            &&& is_area_of(def.grid@, def.max, spawn, def.props@, g1.map)
                            &&& refresh_post(
                                g1.map,
                                dest,
                                Map::empty(),
                                g1.pathfinding@,
                                Set::empty(),
                            )
                            &&& routes_assigned(g1.map, dest, g1.pathfinding@)
                        } else {
                            g1 == turned(g0, d)
                        }
                    },
                }
            } else {
                g1 == turned(g0, d)
            }
        },
    }
}

impl Game {
    /// Applies one movement key: turn, step, warp, or rejection, as
    /// `move_player_post` describes.
    pub fn move_player(&mut self, input: &u8)
        requires
            old(self).wf(),
        ensures
            final(self).wf(),
            move_player_post(*old(self), *final(self), *input),
    {
        let key = *input;
        if !(key == 65 || key == 66 || key == 67 || key == 68) {
            return ;
        }
        let d = if key == 65 {
            Direction::Up
        } else if key == 66 {
            Direction::Down
        } else if key == 67 {
            Direction::Right
        } else {
            Direction::Left
        };
        let current = self.map.current;
        let mut point = current;
        if self.map.direction == d {
            match d {
                Direction::Up => if point.y > 0 {
                    point.y = point.y - 1;
                },
                Direction::Down => if point.y < usize::MAX {
                    point.y = point.y + 1;
                },
                Direction::Right => if point.x < usize::MAX {
                    point.x = point.x + 1;
                },
                Direction::Left => if point.x > 0 {
                    point.x = point.x - 1;
                },
            }
        }
        self.map.direction = d;
        if point.x == current.x && point.y == current.y {
            return ;
        }
        let tile = self.map.grid.get(&point);
        if tile == Tile::Empty {
            proof {
                self.map.grid.lemma_outside_unknown(point);
            }
            self.map.grid.set(&point, Tile::Current);
            self.map.grid.set(&current, Tile::Empty);
            self.map.current = point;
            return ;
        }
        if tile == Tile::Warp {
            let meta = self.map.meta_at(&point);
            match meta {
                Some(dest) => {
                    let dk = area_key_of(dest.0, dest.1);
                    let entry = match self.entries.get(dk) {
                        Some(p) => Some(*p),
                        None => None,
                    };
                    let facing_code = self.map.direction.to_u8();
                    let built = match self.maps.get(dk) {
                        Some(def) => {
                            let player: (usize, usize, u8) = match entry {
                                Some(p) => (p.x, p.y, facing_code),
                                None => def.player,
                            };
                            Some(Area::parse_map(&def.grid, &def.max, &player, &def.props))
                        },
                        None => None,
                    };
                    match built {
                        Some(new_area) => {
                            self.pathfinding.clear();
                            let src_key = area_key_of(self.current_map.0, self.current_map.1);
                            self.entries.insert(src_key, current);
                            self.current_map = dest;
                            self.map = new_area;
                            self.new_path_for_npc();
                        },
                        None => {},
                    }
                },
                None => {},
            }
            return ;
        }
    }

    /// The cell one step ahead of the player in the current facing,
    /// when it exists inside the declared bounds.
    pub open spec fn interact_spec(&self) -> Option<Tile> {
        let c = self.map.current;
        let p = match self.map.direction {
            Direction::Down => if c.y < usize::MAX {
                Some(Point { x: c.x, y: (c.y + 1) as usize })
            } else {
                None
            },
            Direction::Left => if c.x > 0 {
                Some(Point { x: (c.x - 1) as usize, y: c.y })
            } else {
                None
            },
            Direction::Right => if c.x < usize::MAX {
                Some(Point { x: (c.x + 1) as usize, y: c.y })
            } else {
                None
            },
            Direction::Up => if c.y > 0 {
                Some(Point { x: c.x, y: (c.y - 1) as usize })
            } else {
                None
            },
        };
        match p {
            Some(q) => if self.map.grid.in_bounds(q) {
                Some(self.map.grid.tile_at(q))
            } else {
                None
            },
            None => None,
        }
    }

    /// Reports the tile the player faces, or nothing when that cell
    /// lies outside the declared bounds.
    pub fn interact(&self) -> (r: Option<Tile>)
        requires
            self.wf(),
        ensures
            r == self.interact_spec(),
    {
        let c = self.map.current;
        let p: Option<Point> = match self.map.direction {
            Direction::Down => if c.y < usize::MAX {
                Some(Point { x: c.x, y: c.y + 1 })
            } else {
                None
            },
            Direction::Left => if c.x > 0 {
                Some(Point { x: c.x - 1, y: c.y })
            } else {
                None
            },
            Direction::Right => if c.x < usize::MAX {
                Some(Point { x: c.x + 1, y: c.y })
            } else {
                None
            },
            Direction::Up => if c.y > 0 {
                Some(Point { x: c.x, y: c.y - 1 })
            } else {
                None
            },
        };
        match p {
            Some(q) => if self.map.grid.contains(&q) {
                Some(self.map.grid.get(&q))
            } else {
                None
            },
            None => None,
        }
    }
}

/// Everything an NPC step does to the game. A step whose meta names
/// another area, or an unknown NPC, changes nothing. A step onto an
/// `Empty` cell moves the NPC (vacating its old cell, occupying the
/// target, updating the registry) and, if its cached route ran dry,
/// refreshes routes. A step onto anything else discards that NPC's
/// whole cached route and refreshes — routes are recomputed, never
/// patched.
pub open spec fn move_npc_post(g0: Game, g1: Game, m: (u8, u8, u8), pt: Point) -> bool {
    let k = cache_key(m.0, m.1, m.2);
    if g0.current_map != (m.1, m.2) {
        g1 == g0
    } else if !g0.map.npc@.dom().contains(m.0 as u64) {
        g1 == g0
    } else {
        let pos = g0.map.npc@[m.0 as u64];
        if g0.map.grid.tile_at(pt) == Tile::Empty {
            &&& g1.map.grid.spec_max_x() == g0.map.grid.spec_max_x()
            &&& g1.map.grid.spec_max_y() == g0.map.grid.spec_max_y()
            &&& forall|q: Point|
                g1.map.grid.tile_at(q) == if q == pt {
                    Tile::NPC
                } else if q == pos && g0.map.grid.in_bounds(q) {
                    Tile::Empty
                } else {
                    g0.map.grid.tile_at(q)
                }
            &&& g1.map.npc@ == g0.map.npc@.insert(m.0 as u64, pt)
            &&& g1.map.current == g0.map.current
            &&& g1.map.direction == g0.map.direction
            &&& g1.map.meta == g0.map.meta
            &&& g1.map.props == g0.map.props
            &&& g1.current_map == g0.current_map
            &&& g1.entries == g0.entries
            &&& g1.maps == g0.maps
            &&& if g0.pathfinding@.dom().contains(k) && g0.pathfinding@[k]@.len() == 0 {
                refresh_post(g1.map, g0.current_map, g0.pathfinding@, g1.pathfinding@, Set::empty())
                    && routes_assigned(g1.map, g0.current_map, g1.pathfinding@)
            } else {
                g1.pathfinding == g0.pathfinding
            }
        } else {
            &&& g1.map == g0.map
            &&& g1.current_map == g0.current_map
            &&& g1.entries == g0.entries
            &&& g1.maps == g0.maps
            &&& refresh_post(g0.map, g0.current_map, g0.pathfinding@, g1.pathfinding@, set![k])
            &&& routes_assigned(g0.map, g0.current_map, g1.pathfinding@)
        }
    }
}

impl Game {
    /// Applies one popped route step to an NPC, as `move_npc_post`
    /// describes.
    pub fn move_npc(&mut self, meta: &(u8, u8, u8), point: &Point)
        requires
            old(self).wf(),
        ensures
            final(self).wf(),
            move_npc_post(*old(self), *final(self), *meta, *point),
    {
        if !(self.current_map.0 == meta.1 && self.current_map.1 == meta.2) {
            return ;
        }
        let id = meta.0 as u64;
        let pos = match self.map.npc.get(id) {
            Some(p) => Some(*p),
            None => None,
        };
        match pos {
            None => {},
            Some(pos) => {
                let key = cache_key_of(meta.0, meta.1, meta.2);
                if self.map.grid.get(point) == Tile::Empty {
                    proof {
                        self.map.grid.lemma_outside_unknown(*point);
                    }
                    self.map.grid.set(&pos, Tile::Empty);
                    self.map.grid.set(point, Tile::NPC);
                    self.map.npc.insert(id, *point);
                    proof {
                        assert(crate::map::npc_table_ok(self.map.npc@)) by {
                            assert forall|kk: u64|
                                self.map.npc@.dom().contains(kk) implies kk < 256 by {
                                if kk != id {
                                    assert(old(self).map.npc@.dom().contains(kk));
                                }
                            }
                        }
                    }
                    let dry = match self.pathfinding.get(key) {
                        Some(route) => route.len() == 0,
                        None => false,
                    };
                    if dry {
                        self.new_path_for_npc();
                    }
                } else {
                    let ghost c0 = self.pathfinding@;
                    let had = match self.pathfinding.get(key) {
                        Some(_) => true,
                        None => false,
                    };
                    if had {
                        self.pathfinding.insert(key, Vec::new());
                    }
                    let ghost cleared = self.pathfinding@;
                    proof {
                        assert(refresh_post(
                            self.map,
                            self.current_map,
                            c0,
                            cleared,
                            set![key],
                        ));
                    }
                    self.new_path_for_npc();
                    proof {
                        let c2 = self.pathfinding@;
                        assert forall|k: u64|
                            c0.dom().contains(k) && !set![key].contains(k) && (#[trigger] c0[k])@.len()
                                > 0 implies c2.dom().contains(k) && c2[k] == c0[k] by {
                            assert(cleared.dom().contains(k) && cleared[k] == c0[k]);
                        }
                        assert forall|k: u64| #[trigger] c2.dom().contains(k) implies (
                        c0.dom().contains(k) && !set![key].contains(k) && c2[k] == c0[k])
                            || fresh_route_for(old(self).map, old(self).current_map, k, c2[k]) || (
                        set![key].contains(k) && c2[k]@.len() == 0) by {
                            if cleared.dom().contains(k) && !Set::<u64>::empty().contains(k)
                                && c2[k] == cleared[k] {
                                assert(cleared.dom().contains(k));
                            }
                        }
                    }
                }
            },
        }
    }
}

/// What the ticker pops in one sweep: for every cached route that
/// still has steps, the decoded key with the route's back element, in
/// cache order.
pub open spec fn decode_key(k: u64) -> (u8, u8, u8) {
    ((((k / 0x10000) % 0x100) as u8), (((k / 0x100) % 0x100) as u8), ((k % 0x100) as u8))
}

/// The sweep's output over a list of cache keys.
pub open spec fn popped_of(c: Map<u64, Vec<Point>>, keys: Seq<u64>) -> Seq<((u8, u8, u8), Point)>
    decreases keys.len(),
{
    if keys.len() == 0 {
        Seq::empty()
    } else {
        popped_of(c, keys.drop_last()) + if c.dom().contains(keys.last()) && c[keys.last()]@.len()
            > 0 {
            seq![(decode_key(keys.last()), c[keys.last()]@.last())]
        } else {
            Seq::empty()
        }
    }
}

impl Game {
    /// Pops one pending step from every non-empty cached route —
    /// consuming from the back, nearest the NPC — and hands back the
    /// popped steps with their decoded (npc, area, part) keys, in
    /// cache order. Empty routes are left for the next refresh.
    #[verifier::loop_isolation(false)]
    pub fn pop_npc_steps(&mut self) -> (r: Vec<((u8, u8, u8), Point)>)
        requires
            old(self).wf(),
        ensures
            final(self).wf(),
            final(self).map == old(self).map,
            final(self).maps == old(self).maps,
            final(self).entries == old(self).entries,
            final(self).current_map == old(self).current_map,
            final(self).pathfinding.key_seq() == old(self).pathfinding.key_seq(),
            final(self).pathfinding@.dom() == old(self).pathfinding@.dom(),
            forall|k: u64|
                #[trigger] old(self).pathfinding@.dom().contains(k) ==> if old(
                    self,
                ).pathfinding@[k]@.len() > 0 {
                    final(self).pathfinding@[k]@ == old(self).pathfinding@[k]@.drop_last()
                } else {
                    final(self).pathfinding@[k] == old(self).pathfinding@[k]
                },
            r@ == popped_of(old(self).pathfinding@, old(self).pathfinding.key_seq()),
    {
        let ghost c0 = self.pathfinding@;
        let ghost keys0 = self.pathfinding.key_seq();
        proof {
            self.pathfinding.lemma_keys_distinct();
            self.pathfinding.lemma_dom_iff_key();
        }
        let n = self.pathfinding.len();
        let mut out: Vec<((u8, u8, u8), Point)> = Vec::new();
        let mut i: usize = 0;
        while i < n
            invariant
                self.wf(),
                self.map == old(self).map,
                self.maps == old(self).maps,
                self.entries == old(self).entries,
                self.current_map == old(self).current_map,
                self.pathfinding.key_seq() == keys0,
                n == keys0.len(),
                i <= n,
                self.pathfinding@.dom() == c0.dom(),
                forall|j: int|
                    0 <= j < i ==> if (#[trigger] c0[keys0[j]])@.len() > 0 {
                        self.pathfinding@[keys0[j]]@ == c0[keys0[j]]@.drop_last()
                    } else {
                        self.pathfinding@[keys0[j]] == c0[keys0[j]]
                    },
                forall|j: int| i <= j < n ==> self.pathfinding@[#[trigger] keys0[j]] == c0[keys0[j]],
                out@ == popped_of(c0, keys0.take(i as int)),
            decreases n - i,
        {
            let k = self.pathfinding.key_at(i);
            proof {
                assert(keys0.take(i + 1).drop_last() =~= keys0.take(i as int));
                assert(keys0.take(i + 1).last() == keys0[i as int]);
                assert(self.pathfinding@[k] == c0[k]);
            }
            let ghost before = self.pathfinding@;
            let mut route = self.pathfinding.replace(i, Vec::new());
            if route.len() > 0 {
                let step = match route.pop() {
                    Some(p) => p,
                    None => Point { x: 0, y: 0 },
                };
                let npc = ((k / 0x10000) % 0x100) as u8;
                let a = ((k / 0x100) % 0x100) as u8;
                let p = (k % 0x100) as u8;
                proof {
                    assert((npc, a, p) == decode_key(k));
                }
                out.push(((npc, a, p), step));
            }
            let ghost replaced = self.pathfinding@;
            let _spent = self.pathfinding.replace(i, route);
            proof {
                assert(self.pathfinding@ == replaced.insert(k, route));
                assert(self.pathfinding@.dom() =~= c0.dom());
                assert forall|j: int|
                    0 <= j < i + 1 implies if (#[trigger] c0[keys0[j]])@.len() > 0 {
                    self.pathfinding@[keys0[j]]@ == c0[keys0[j]]@.drop_last()
                } else {
                    self.pathfinding@[keys0[j]] == c0[keys0[j]]
                } by {
                    if j < i {
                        assert(keys0[j] != keys0[i as int]);
                    }
                }
                assert(out@ == popped_of(c0, keys0.take(i + 1)));
            }
            i = i + 1;
        }
        proof {
            assert(keys0.take(n as int) =~= keys0);
            assert forall|k: u64| #[trigger] c0.dom().contains(k) implies (if c0[k]@.len() > 0 {
                self.pathfinding@[k]@ == c0[k]@.drop_last()
            } else {
                self.pathfinding@[k] == c0[k]
            }) by {
                assert(keys0.contains(k));
                let j = choose|j: int| 0 <= j < keys0.len() && keys0[j] == k;
            }
        }
        out
    }
}

impl Game {
    /// Builds the game from the parsed definitions: the registry keyed
    /// by (area, part) with later duplicates winning, the active area
    /// built from the definition keyed (0, 0) — or an empty default
    /// area when none is — empty entries, and a cache freshly filled
    /// for the active area.
    #[verifier::loop_isolation(false)]
    pub fn new(input: Vec<ParsedMap>) -> (r: Game)
        requires
            forall|i: int| 0 <= i < input@.len() ==> parsed_ok(#[trigger] input@[i]),
        ensures
            r.wf(),
            r.current_map == (0u8, 0u8),
            r.entries@ == Map::<u64, Point>::empty(),
            r.maps@ == defs_of(input@),
            if defs_of(input@).dom().contains(area_key(0, 0)) {
                is_area_of(
                    defs_of(input@)[area_key(0, 0)].grid@,
                    defs_of(input@)[area_key(0, 0)].max,
                    defs_of(input@)[area_key(0, 0)].player,
                    defs_of(input@)[area_key(0, 0)].props@,
                    r.map,
                )
            } else {
                is_area_of(Seq::empty(), (0, 0), (0, 0, 0), Seq::empty(), r.map)
            },
            refresh_post(r.map, (0u8, 0u8), Map::empty(), r.pathfinding@, Set::empty()),
            routes_assigned(r.map, (0u8, 0u8), r.pathfinding@),
    {
        let mut input = input;
        let ghost input0 = input@;
        let mut maps: Table<AreaDefinition> = Table::new();
        let ghost mut i: int = 0;
        while input.len() > 0
            invariant
                0 <= i <= input0.len(),
                input@ == input0.skip(i),
                maps.wf(),
                maps@ == defs_of(input0.take(i)),
                forall|k: u64| #[trigger] maps@.dom().contains(k) ==> def_ok(maps@[k]),
            decreases input@.len(),
        {
            let ghost prev = maps@;
            let pm = input.remove(0);
            proof {
                assert(pm == input0[i]);
                assert(input@ =~= input0.skip(i + 1));
                assert(input0.take(i + 1).drop_last() =~= input0.take(i));
                assert(input0.take(i + 1).last() == input0[i]);
            }
            let key = area_key_of(pm.area, pm.part);
            let def = AreaDefinition { grid: pm.grid, max: pm.max, player: pm.player, props: pm.props };
            proof {
                assert(def_ok(def));
            }
            maps.insert(key, def);
            proof {
                assert forall|k: u64| #[trigger] maps@.dom().contains(k) implies def_ok(
                    maps@[k],
                ) by {
                    if k != key {
                        assert(prev.dom().contains(k));
                        assert(maps@[k] == prev[k]);
                    }
                }
                i = i + 1;
            }
        }
        proof {
            assert(input0.take(input0.len() as int) =~= input0);
        }

        let key00 = area_key_of(0, 0);
        let built = match maps.get(key00) {
            Some(def) => Some(Area::parse_map(&def.grid, &def.max, &def.player, &def.props)),
            None => None,
        };
        let map = match built {
            Some(area) => area,
            None => {
                let no_cells: Vec<(Point, (u8, (u8, u8)))> = Vec::new();
                let no_props: Vec<(u8, ((u8, u8), (u8, u8)))> = Vec::new();
                let no_max: (usize, usize) = (0, 0);
                let no_player: (usize, usize, u8) = (0, 0, 0);
                proof {
                    assert((no_max.0 as int) * (no_max.1 as int) == 0) by (nonlinear_arith)
                        requires no_max.0 == 0,
                    ;
                }
                Area::parse_map(&no_cells, &no_max, &no_player, &no_props)
            },
        };
        let mut game = Game {
            current_map: (0, 0),
            entries: Table::new(),
            map,
            maps,
            pathfinding: Table::new(),
        };
        game.new_path_for_npc();
        game
    }
}

/// Whether a movement key takes the warp under the player's step: the
/// candidate cell is a `Warp` whose metadata names a registered area.
pub open spec fn warp_taken(g0: Game, key: u8) -> bool {
    match key_dir(key) {
        None => false,
        Some(d) => {
            let c = step_toward(g0.map.current, g0.map.direction, d);
            let dest = g0.map.spec_meta_at(c)->0;
            &&& c != g0.map.current
            &&& g0.map.grid.tile_at(c) == Tile::Warp
            &&& g0.map.spec_meta_at(c) is Some
            &&& g0.maps@.dom().contains(area_key(dest.0, dest.1))
        },
    }
}

/// The destination named by the warp a key takes.
pub open spec fn warp_dest(g0: Game, key: u8) -> (u8, u8) {
    let d = key_dir(key)->0;
    let c = step_toward(g0.map.current, g0.map.direction, d);
    g0.map.spec_meta_at(c)->0
}

/// After a warp to a different area, not one route of the vacated
/// area survives in the NPC path cache: the cache was cleared whole,
/// and every binding it regained belongs to the destination. A warp
/// back into the same area is excluded: it vacates nothing, and fresh
/// routes for it legitimately reappear.
pub proof fn lemma_warp_clears_vacated_cache(g0: Game, g1: Game, key: u8)
    requires
        move_player_post(g0, g1, key),
        warp_taken(g0, key),
        warp_dest(g0, key) != g0.current_map,
    ensures
        forall|id: u8|
            !g1.pathfinding@.dom().contains(
                #[trigger] cache_key(id, g0.current_map.0, g0.current_map.1),
            ),
{
    let dest = warp_dest(g0, key);
    assert forall|id: u8|
        !g1.pathfinding@.dom().contains(
            #[trigger] cache_key(id, g0.current_map.0, g0.current_map.1),
        ) by {
        let k = cache_key(id, g0.current_map.0, g0.current_map.1);
        if g1.pathfinding@.dom().contains(k) {
            assert(fresh_route_for(g1.map, dest, k, g1.pathfinding@[k]));
            let nid = choose|nid: u64|
                {
                    &&& #[trigger] g1.map.npc@.dom().contains(nid)
                    &&& nid < 256
                    &&& k == cache_key(nid as u8, dest.0, dest.1)
                    &&& g1.pathfinding@[k]@.len() > 0
                    &&& route_ok(g1.map.grid, g1.map.npc@[nid], g1.pathfinding@[k]@)
                    &&& g1.map.props@.dom().contains(nid)
                    &&& g1.map.props@[nid].0.0 <= g1.pathfinding@[k]@[0].x <= g1.map.props@[nid].0.1
                    &&& g1.map.props@[nid].1.0 <= g1.pathfinding@[k]@[0].y <= g1.map.props@[nid].1.1
                };
            lemma_cache_key_injective(
                id,
                g0.current_map.0,
                g0.current_map.1,
                nid as u8,
                dest.0,
                dest.1,
            );
        }
    }
}

/// Returning to an area already visited puts the player back on the
/// exact point recorded in the entries, not the area's default spawn.
pub proof fn lemma_return_restores_entry(g0: Game, g1: Game, key: u8)
    requires
        move_player_post(g0, g1, key),
        warp_taken(g0, key),
        g0.entries@.dom().contains(area_key(warp_dest(g0, key).0, warp_dest(g0, key).1)),
    ensures
        g1.map.current == (Point {
            x: g0.entries@[area_key(warp_dest(g0, key).0, warp_dest(g0, key).1)].x,
            y: g0.entries@[area_key(warp_dest(g0, key).0, warp_dest(g0, key).1)].y,
        }),
{
}

} // verus!
