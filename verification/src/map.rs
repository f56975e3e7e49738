use vstd::prelude::*;

use crate::shared::{spec_dir_of_code, spec_tile_of_code, Direction, Point, Tile};
use crate::table::Table;

verus! {

/// A cell index stays below the cell count of its rectangle.
pub proof fn lemma_cell_index_bound(x: int, y: int, mx: int, my: int)
    by (nonlinear_arith)
    requires
        0 <= x < mx,
        0 <= y < my,
    ensures
        0 <= y * mx + x < mx * my,
{
}

/// Distinct in-bounds points get distinct cell indices.
pub proof fn lemma_cell_index_injective(x1: int, y1: int, x2: int, y2: int, mx: int)
    by (nonlinear_arith)
    requires
        0 <= x1 < mx,
        0 <= x2 < mx,
        0 <= y1,
        0 <= y2,
        y1 * mx + x1 == y2 * mx + x2,
    ensures
        x1 == x2 && y1 == y2,
{
}

/// A bounded rectangle of tiles covering `[0, max_x) x [0, max_y)`;
/// a lookup outside the rectangle answers `Unknown`, never absence.
pub struct Grid {
    tiles: Vec<Tile>,
    max_x: usize,
    max_y: usize,
}

impl Grid {
    /// The exclusive x bound of the rectangle.
    pub closed spec fn spec_max_x(&self) -> usize {
        self.max_x
    }

    /// The exclusive y bound of the rectangle.
    pub closed spec fn spec_max_y(&self) -> usize {
        self.max_y
    }

    /// How many cells the rectangle holds.
    pub open spec fn spec_cells(&self) -> int {
        self.spec_max_x() * self.spec_max_y()
    }

    /// One tile is stored for every cell of the rectangle.
    pub closed spec fn wf(&self) -> bool {
        self.tiles@.len() == self.spec_cells() && self.spec_cells() <= usize::MAX as int
    }

    /// Whether a point lies inside the rectangle.
    pub open spec fn in_bounds(&self, p: Point) -> bool {
        p.x < self.spec_max_x() && p.y < self.spec_max_y()
    }

    /// The tile of a cell: the stored tile inside the rectangle and
    /// `Unknown` everywhere else.
    pub closed spec fn tile_at(&self, p: Point) -> Tile {
        if self.in_bounds(p) {
            self.tiles@[p.y * self.max_x + p.x]
        } else {
            Tile::Unknown
        }
    }

    /// A fresh rectangle with every cell `Empty`.
    #[verifier::loop_isolation(false)]
    pub fn new(max_x: usize, max_y: usize) -> (r: Grid)
        requires
            (max_x as int) * (max_y as int) <= usize::MAX as int,
        ensures
            r.wf(),
            r.spec_max_x() == max_x,
            r.spec_max_y() == max_y,
            forall|p: Point| r.in_bounds(p) ==> r.tile_at(p) == Tile::Empty,
    {
        let count = max_x * max_y;
        let mut tiles: Vec<Tile> = Vec::new();
        while tiles.len() < count
            invariant
                tiles@.len() <= count,
                forall|j: int| 0 <= j < tiles@.len() ==> tiles@[j] == Tile::Empty,
            decreases count - tiles@.len(),
        {
            tiles.push(Tile::Empty);
        }
        let r = Grid { tiles, max_x, max_y };
        proof {
            assert forall|p: Point| r.in_bounds(p) implies r.tile_at(p) == Tile::Empty by {
                lemma_cell_index_bound(p.x as int, p.y as int, max_x as int, max_y as int);
            }
        }
        r
    }

    /// The rectangle's cell count fits the machine word.
    pub proof fn lemma_cells_bound(&self)
        requires
            self.wf(),
        ensures
            self.spec_cells() <= usize::MAX as int,
    {
    }

    /// Only cells outside the rectangle read `Unknown` by default; in
    /// particular, any other reading places the point inside.
    pub proof fn lemma_outside_unknown(&self, p: Point)
        ensures
            !self.in_bounds(p) ==> self.tile_at(p) == Tile::Unknown,
    {
    }

    /// Whether a point lies inside the rectangle.
    pub fn contains(&self, p: &Point) -> (r: bool)
        ensures
            r == self.in_bounds(*p),
    {
        p.x < self.max_x && p.y < self.max_y
    }

    /// The exclusive x bound of the rectangle.
    pub fn width(&self) -> (r: usize)
        ensures
            r == self.spec_max_x(),
    {
        self.max_x
    }

    /// The exclusive y bound of the rectangle.
    pub fn height(&self) -> (r: usize)
        ensures
            r == self.spec_max_y(),
    {
        self.max_y
    }

    /// How many cells the rectangle holds.
    pub fn cell_count(&self) -> (r: usize)
        requires
            self.wf(),
        ensures
            r == self.spec_cells(),
    {
        self.tiles.len()
    }

    /// Reads the tile of a cell.
    pub fn get(&self, p: &Point) -> (r: Tile)
        requires
            self.wf(),
        ensures
            r == self.tile_at(*p),
    {
        if p.x < self.max_x && p.y < self.max_y {
            proof {
                lemma_cell_index_bound(
                    p.x as int,
                    p.y as int,
                    self.max_x as int,
                    self.max_y as int,
                );
            }
            self.tiles[p.y * self.max_x + p.x]
        } else {
            Tile::Unknown
        }
    }

    /// Writes the tile of a cell; a write outside the rectangle changes
    /// nothing.
    pub fn set(&mut self, p: &Point, t: Tile)
        requires
            old(self).wf(),
        ensures
            final(self).wf(),
            final(self).spec_max_x() == old(self).spec_max_x(),
            final(self).spec_max_y() == old(self).spec_max_y(),
            forall|q: Point|
                final(self).tile_at(q) == if q == *p && old(self).in_bounds(*p) {
                    t
                } else {
                    old(self).tile_at(q)
                },
    {
        if p.x < self.max_x && p.y < self.max_y {
            proof {
                lemma_cell_index_bound(
                    p.x as int,
                    p.y as int,
                    self.max_x as int,
                    self.max_y as int,
                );
            }
            self.tiles.set(p.y * self.max_x + p.x, t);
            proof {
                assert forall|q: Point|
                    self.tile_at(q) == if q == *p && old(self).in_bounds(*p) {
                        t
                    } else {
                        old(self).tile_at(q)
                    } by {
                    if self.in_bounds(q) && q != *p {
                        lemma_cell_index_bound(
                            q.x as int,
                            q.y as int,
                            self.max_x as int,
                            self.max_y as int,
                        );
                        if q.y * self.max_x + q.x == p.y * self.max_x + p.x {
                            lemma_cell_index_injective(
                                q.x as int,
                                q.y as int,
                                p.x as int,
                                p.y as int,
                                self.max_x as int,
                            );
                        }
                    }
                }
            }
        }
    }
}

/// Which declared pair, if any, settles a point: the last declaration
/// for the point wins.
pub open spec fn declared_at(
    cells: Seq<(Point, (u8, (u8, u8)))>,
    p: Point,
) -> Option<(u8, (u8, u8))>
    decreases cells.len(),
{
    if cells.len() == 0 {
        None
    } else if cells.last().0 == p {
        Some(cells.last().1)
    } else {
        declared_at(cells.drop_last(), p)
    }
}

/// The tile a point resolves to after the declared cells are overlaid
/// on an all-`Empty` rectangle and the spawn point is forced last.
pub open spec fn built_tile(
    cells: Seq<(Point, (u8, (u8, u8)))>,
    spawn: Point,
    p: Point,
) -> Tile {
    if p == spawn {
        Tile::Current
    } else {
        match declared_at(cells, p) {
            Some(d) => spec_tile_of_code(d.0),
            None => Tile::Empty,
        }
    }
}

/// The occupant metadata a point carries after the overlay.
pub open spec fn built_meta(cells: Seq<(Point, (u8, (u8, u8)))>, p: Point) -> Option<(u8, u8)> {
    match declared_at(cells, p) {
        Some(d) => Some(d.1),
        None => None,
    }
}

/// The NPC registry the overlay produces: every in-bounds declared cell
/// whose tile resolves to `NPC` and whose secondary metadata tag is zero
/// registers its point under the primary tag; later declarations win.
pub open spec fn spec_npcs(
    cells: Seq<(Point, (u8, (u8, u8)))>,
    mx: usize,
    my: usize,
) -> Map<u64, Point>
    decreases cells.len(),
{
    if cells.len() == 0 {
        Map::empty()
    } else {
        let m = spec_npcs(cells.drop_last(), mx, my);
        let c = cells.last();
        if c.0.x < mx && c.0.y < my && spec_tile_of_code(c.1.0) == Tile::NPC && c.1.1.1 == 0 {
            m.insert(c.1.1.0 as u64, c.0)
        } else {
            m
        }
    }
}

/// The spawn-range table a declared prop list produces: later
/// declarations win.
pub open spec fn spec_props(
    props: Seq<(u8, ((u8, u8), (u8, u8)))>,
) -> Map<u64, ((u8, u8), (u8, u8))>
    decreases props.len(),
{
    if props.len() == 0 {
        Map::empty()
    } else {
        spec_props(props.drop_last()).insert(props.last().0 as u64, props.last().1)
    }
}

/// Every NPC identifier in a registry fits a byte.
pub open spec fn npc_table_ok(m: Map<u64, Point>) -> bool {
    forall|k: u64| m.dom().contains(k) ==> k < 256
}

/// Every spawn-range entry keys a byte-sized identifier to non-empty
/// inclusive ranges on both axes.
pub open spec fn props_table_ok(m: Map<u64, ((u8, u8), (u8, u8))>) -> bool {
    forall|k: u64|
        #[trigger] m.dom().contains(k) ==> k < 256 && m[k].0.0 <= m[k].0.1 && m[k].1.0
            <= m[k].1.1
}

/// Adding a byte-sized key with non-empty ranges keeps a spawn-range
/// table well formed.
pub proof fn lemma_props_ok_insert(m: Map<u64, ((u8, u8), (u8, u8))>, k0: u64, v: ((u8, u8), (u8, u8)))
    requires
        props_table_ok(m),
        k0 < 256,
        v.0.0 <= v.0.1,
        v.1.0 <= v.1.1,
    ensures
        props_table_ok(m.insert(k0, v)),
{
    let m1 = m.insert(k0, v);
    assert forall|k: u64| #[trigger] m1.dom().contains(k) implies k < 256 && m1[k].0.0
        <= m1[k].0.1 && m1[k].1.0 <= m1[k].1.1 by {
        if k != k0 {
            assert(m.dom().contains(k));
            assert(m1[k] == m[k]);
        }
    }
}

/// One bounded grid instance: tiles, the player's point and facing,
/// per-cell occupant metadata, the NPC registry, and NPC spawn ranges.
pub struct Area {
    pub grid: Grid,
    pub current: Point,
    pub direction: Direction,
    pub meta: Vec<Option<(u8, u8)>>,
    pub npc: Table<Point>,
    pub props: Table<((u8, u8), (u8, u8))>,
}

impl Area {
    /// The occupant metadata of a point; `None` outside the rectangle.
    pub closed spec fn spec_meta_at(&self, p: Point) -> Option<(u8, u8)> {
        if self.grid.in_bounds(p) {
            self.meta@[p.y * self.grid.spec_max_x() + p.x]
        } else {
            None
        }
    }

    /// The area's backing stores line up with its rectangle, NPC
    /// identifiers fit a byte, and every spawn range is non-empty.
    pub open spec fn wf(&self) -> bool {
        &&& self.grid.wf()
        &&& self.meta@.len() == self.grid.spec_cells()
        &&& self.npc.wf()
        &&& npc_table_ok(self.npc@)
        &&& self.props.wf()
        &&& props_table_ok(self.props@)
    }

    /// Reads the occupant metadata of a point.
    pub fn meta_at(&self, p: &Point) -> (r: Option<(u8, u8)>)
        requires
            self.wf(),
        ensures
            r == self.spec_meta_at(*p),
    {
        if p.x < self.grid.width() && p.y < self.grid.height() {
            proof {
                lemma_cell_index_bound(
                    p.x as int,
                    p.y as int,
                    self.grid.spec_max_x() as int,
                    self.grid.spec_max_y() as int,
                );
            }
            self.meta[p.y * self.grid.width() + p.x]
        } else {
            None
        }
    }
}

/// What `Area::parse_map` builds from a definition: the rectangle with
/// the declared cells overlaid and the spawn forced to `Current` last,
/// the spawn as current point, the decoded facing, the declared occupant
/// metadata, the NPC registry of the overlay, and the spawn ranges.
pub open spec fn is_area_of(
    cells: Seq<(Point, (u8, (u8, u8)))>,
    max: (usize, usize),
    player: (usize, usize, u8),
    props: Seq<(u8, ((u8, u8), (u8, u8)))>,
    a: Area,
) -> bool {
    let spawn = Point { x: player.0, y: player.1 };
    &&& a.grid.spec_max_x() == max.0
    &&& a.grid.spec_max_y() == max.1
    &&& a.current == spawn
    &&& a.direction == spec_dir_of_code(player.2)
    &&& forall|p: Point| a.grid.in_bounds(p) ==> a.grid.tile_at(p) == built_tile(cells, spawn, p)
    &&& forall|p: Point| a.grid.in_bounds(p) ==> a.spec_meta_at(p) == built_meta(cells, p)
    &&& a.npc@ == spec_npcs(cells, max.0, max.1)
    &&& a.props@ == spec_props(props)
}

impl Area {
    /// Builds an area from a parsed definition: every cell starts
    /// `Empty`, declared cells are overlaid in order (later declarations
    /// win), NPC cells with a zero secondary tag register their point,
    /// and the spawn cell is forced to `Current` last.
    #[verifier::loop_isolation(false)]
    #[verifier::rlimit(50)]
    pub fn parse_map(
        input: &Vec<(Point, (u8, (u8, u8)))>,
        max: &(usize, usize),
        player: &(usize, usize, u8),
        props: &Vec<(u8, ((u8, u8), (u8, u8)))>,
    ) -> (r: Area)
        requires
            (max.0 as int) * (max.1 as int) <= usize::MAX as int,
            forall|j: int|
                0 <= j < props@.len() ==> (#[trigger] props@[j]).1.0.0 <= props@[j].1.0.1
                    && props@[j].1.1.0 <= props@[j].1.1.1,
        ensures
            r.wf(),
            is_area_of(input@, *max, *player, props@, r),
    {
        let mut grid = Grid::new(max.0, max.1);
        let count = grid.cell_count();
        let mut meta: Vec<Option<(u8, u8)>> = Vec::new();
        while meta.len() < count
            invariant
                meta@.len() <= count,
                forall|j: int| 0 <= j < meta@.len() ==> meta@[j] is None,
            decreases count - meta@.len(),
        {
            meta.push(None);
        }
        let mut npc: Table<Point> = Table::new();
        proof {
            assert forall|p: Point| grid.in_bounds(p) implies meta@[p.y * max.0 + p.x] is None by {
                lemma_cell_index_bound(p.x as int, p.y as int, max.0 as int, max.1 as int);
            }
        }

        let mut i: usize = 0;
        while i < input.len()
            invariant
                grid.wf(),
                grid.spec_max_x() == max.0,
                grid.spec_max_y() == max.1,
                meta@.len() == count,
                npc.wf(),
                npc_table_ok(npc@),
                i <= input@.len(),
                forall|p: Point|
                    grid.in_bounds(p) ==> grid.tile_at(p) == match declared_at(
                        input@.take(i as int),
                        p,
                    ) {
                        Some(d) => spec_tile_of_code(d.0),
                        None => Tile::Empty,
                    },
                forall|p: Point|
                    grid.in_bounds(p) ==> meta@[p.y * max.0 + p.x] == built_meta(
                        input@.take(i as int),
                        p,
                    ),
                npc@ == spec_npcs(input@.take(i as int), max.0, max.1),
            decreases input@.len() - i,
        {
            let (p, tm) = input[i];
            let ghost grid0 = grid;
            let ghost meta0 = meta@;
            proof {
                assert(input@.take(i + 1).drop_last() =~= input@.take(i as int));
                assert(input@.take(i + 1).last() == input@[i as int]);
            }
            if grid.contains(&p) {
                proof {
                    lemma_cell_index_bound(
                        p.x as int,
                        p.y as int,
                        max.0 as int,
                        max.1 as int,
                    );
                }
                let t = Tile::from_u8(&tm.0);
                grid.set(&p, t);
                meta.set(p.y * max.0 + p.x, Some(tm.1));
                if t == Tile::NPC && tm.1.1 == 0 {
                    let ghost npc0 = npc@;
                    npc.insert(tm.1.0 as u64, p);
                    proof {
                        assert(npc_table_ok(npc@)) by {
                            assert forall|k: u64| npc@.dom().contains(k) implies k < 256 by {
                                if k != tm.1.0 as u64 {
                                    assert(npc0.dom().contains(k));
                                }
                            }
                        }
                    }
                }
                proof {
                    assert forall|q: Point|
                        grid.in_bounds(q) && q != p implies meta@[q.y * max.0 + q.x] == built_meta(
                        input@.take(i as int),
                        q,
                    ) by {
                        lemma_cell_index_bound(q.x as int, q.y as int, max.0 as int, max.1 as int);
                        assert(grid0.in_bounds(q));
                        assert(meta0[q.y * max.0 + q.x] == built_meta(input@.take(i as int), q));
                        if q.y * max.0 + q.x == p.y * max.0 + p.x {
                            lemma_cell_index_injective(
                                q.x as int,
                                q.y as int,
                                p.x as int,
                                p.y as int,
                                max.0 as int,
                            );
                        }
                        assert(meta@[q.y * max.0 + q.x] == meta0[q.y * max.0 + q.x]);
                    }
                }
            }
            i = i + 1;
        }
        proof {
            assert(input@.take(input@.len() as int) =~= input@);
        }

        let mut prop_table: Table<((u8, u8), (u8, u8))> = Table::new();
        let mut j: usize = 0;
        while j < props.len()
            invariant
                prop_table.wf(),
                j <= props@.len(),
                prop_table@ == spec_props(props@.take(j as int)),
                props_table_ok(prop_table@),
            decreases props@.len() - j,
        {
            let (id, ranges) = props[j];
            let ghost prev = prop_table@;
            proof {
                assert(props@.take(j + 1).drop_last() =~= props@.take(j as int));
                assert(props@.take(j + 1).last() == props@[j as int]);
            }
            prop_table.insert(id as u64, ranges);
            proof {
                assert(ranges == props@[j as int].1);
                lemma_props_ok_insert(prev, id as u64, ranges);
                assert(prop_table@ == prev.insert(id as u64, ranges));
            }
            j = j + 1;
        }
        proof {
            assert(props@.take(props@.len() as int) =~= props@);
        }

        let spawn = Point { x: player.0, y: player.1 };
        grid.set(&spawn, Tile::Current);
        let area = Area {
            grid,
            current: spawn,
            direction: Direction::from_u8(player.2),
            meta,
            npc,
            props: prop_table,
        };
        proof {
            assert(props_table_ok(area.props@));
            assert(area.grid.spec_max_x() == max.0);
            assert(area.grid.spec_max_y() == max.1);
            assert(area.current == spawn);
            assert(area.direction == spec_dir_of_code(player.2));
            assert(forall|p: Point|
                area.grid.in_bounds(p) ==> area.grid.tile_at(p) == built_tile(
                    input@,
                    spawn,
                    p,
                ));
            assert(forall|p: Point|
                area.grid.in_bounds(p) ==> area.spec_meta_at(p) == built_meta(input@, p));
            assert(area.npc@ == spec_npcs(input@, max.0, max.1));
            assert(area.props@ == spec_props(props@));
            assert(is_area_of(input@, *max, *player, props@, area));
        }
        area
    }
}

} // verus!
