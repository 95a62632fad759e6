use crate::dijkstra::Vertex;
use vstd::prelude::*;

verus! {

/// Width of the map that `map_setup` builds.
pub const WIDTH: usize = 5;

/// Height of the map that `map_setup` builds.
pub const HEIGHT: usize = 5;

#[derive(Debug, Clone, Copy, PartialEq, Eq, PartialOrd, Ord, Hash, Structural)]
pub enum TileType {
    Empty,
    Floor,
    Start,
    End,
}

#[derive(Debug, Clone, Copy, PartialEq, Eq, PartialOrd, Ord, Hash, Structural)]
pub struct Tile {
    pub id: usize,
    pub x: usize,
    pub y: usize,
    pub tile_type: TileType,
}

impl Vertex for Tile {
    open spec fn spec_id(&self) -> usize {
        self.id
    }

    fn get_id(&self) -> (r: usize) {
        self.id
    }
}

/// Why a grid operation refused its coordinates.
#[derive(Debug, Clone, Copy, PartialEq, Eq, Structural)]
pub enum GridError {
    OutOfBounds,
}

/// A rectangular grid of tiles, stored row by row (`tiles[y][x]`).
pub struct TileMap {
    pub width: usize,
    pub height: usize,
    pub tiles: Vec<Vec<Tile>>,
    pub start: (usize, usize),
    pub end: (usize, usize),
}

/// `(x, y)` and `(a, b)` are next to each other, across one edge.
pub open spec fn cells_adjacent(x: int, y: int, a: int, b: int) -> bool {
    (x == a && (y + 1 == b || b + 1 == y)) || (y == b && (x + 1 == a || a + 1 == x))
}

/// Distinct cells of a row-major grid of width `w` have distinct indices.
pub proof fn lemma_index_injective(w: int, x1: int, y1: int, x2: int, y2: int)
    requires
        0 <= x1 < w,
        0 <= x2 < w,
        0 <= y1,
        0 <= y2,
        y1 * w + x1 == y2 * w + x2,
    ensures
        x1 == x2,
        y1 == y2,
{
    if y1 < y2 {
        assert(y1 * w + w <= y2 * w) by (nonlinear_arith)
            requires
                y1 < y2,
                0 < w,
        ;
    } else if y2 < y1 {
        assert(y2 * w + w <= y1 * w) by (nonlinear_arith)
            requires
                y2 < y1,
                0 < w,
        ;
    }
}

/// The row-major index of a cell lies below `w * h`.
pub proof fn lemma_index_bound(w: int, h: int, x: int, y: int)
    requires
        0 <= x < w,
        0 <= y < h,
    ensures
        0 <= y * w + x < w * h,
{
    assert(0 <= y * w) by (nonlinear_arith)
        requires
            0 <= y,
            0 <= w,
    ;
    assert(y * w + w <= h * w) by (nonlinear_arith)
        requires
            y + 1 <= h,
            0 <= w,
    ;
    assert(h * w == w * h) by (nonlinear_arith);
}

impl TileMap {
    pub open spec fn in_bounds(&self, x: int, y: int) -> bool {
        0 <= x < self.width && 0 <= y < self.height
    }

    pub open spec fn tile(&self, x: int, y: int) -> Tile {
        self.tiles@[y]@[x]
    }

    pub open spec fn kind(&self, x: int, y: int) -> TileType {
        self.tile(x, y).tile_type
    }

    pub open spec fn index_of(&self, x: int, y: int) -> int {
        y * self.width + x
    }

    /// The cell `(x, y)` is on the grid and not `Empty`.
    pub open spec fn walkable(&self, x: int, y: int) -> bool {
        self.in_bounds(x, y) && self.kind(x, y) != TileType::Empty
    }

    /// Every cell holds the tile of its own coordinates; exactly one tile is
    /// `Start` and exactly one is `End`, at the recorded coordinates.
    pub open spec fn wf(&self) -> bool {
        &&& self.width * self.height <= usize::MAX
        &&& self.tiles@.len() == self.height
        &&& forall|y: int| 0 <= y < self.height ==> (#[trigger] self.tiles@[y])@.len() == self.width
        &&& forall|x: int, y: int|
            self.in_bounds(x, y) ==> {
                let t = #[trigger] self.tile(x, y);
                &&& t.x == x
                &&& t.y == y
                &&& t.id == self.index_of(x, y)
                &&& (t.tile_type == TileType::Start <==> (x == self.start.0 && y == self.start.1))
                &&& (t.tile_type == TileType::End <==> (x == self.end.0 && y == self.end.1))
            }
        &&& self.in_bounds(self.start.0 as int, self.start.1 as int)
        &&& self.in_bounds(self.end.0 as int, self.end.1 as int)
        &&& self.start != self.end
    }

    pub open spec fn start_tile(&self) -> Tile {
        self.tile(self.start.0 as int, self.start.1 as int)
    }

    pub open spec fn end_tile(&self) -> Tile {
        self.tile(self.end.0 as int, self.end.1 as int)
    }

    /// `after` is this map with the tile at `(x, y)` turned into `Floor`.
    pub open spec fn floored(&self, after: TileMap, x: int, y: int) -> bool {
        &&& after.width == self.width
        &&& after.height == self.height
        &&& after.start == self.start
        &&& after.end == self.end
        &&& after.kind(x, y) == TileType::Floor
        &&& after.tile(x, y).id == self.tile(x, y).id
        &&& forall|i: int, j: int|
            after.in_bounds(i, j) && !(i == x && j == y) ==> #[trigger] after.tile(i, j) == self.tile(
                i,
                j,
            )
    }

    /// A grid of `width` by `height` tiles, all `Empty` but `Start` at
    /// `start` and `End` at `end`; the tile at `(x, y)` has id
    /// `y * width + x`.
    pub fn new(width: usize, height: usize, start: (usize, usize), end: (usize, usize)) -> (r: TileMap)
        requires
            width * height <= usize::MAX,
            start.0 < width && start.1 < height,
            end.0 < width && end.1 < height,
            start != end,
        ensures
            r.wf(),
            r.width == width,
            r.height == height,
            r.start == start,
            r.end == end,
            forall|x: int, y: int|
                r.in_bounds(x, y) && !(x == start.0 && y == start.1) && !(x == end.0 && y
                    == end.1) ==> #[trigger] r.kind(x, y) == TileType::Empty,
    {
        let mut tiles: Vec<Vec<Tile>> = Vec::with_capacity(height);
        let mut y: usize = 0;
        while y < height
            invariant
                y <= height,
                width * height <= usize::MAX,
                tiles@.len() == y,
                forall|j: int| 0 <= j < y ==> (#[trigger] tiles@[j])@.len() == width,
                forall|i: int, j: int|
                    0 <= i < width && 0 <= j < y ==> {
                        let t = #[trigger] tiles@[j]@[i];
                        &&& t.x == i
                        &&& t.y == j
                        &&& t.id == j * width + i
                        &&& t.tile_type == (if i == start.0 && j == start.1 {
                            TileType::Start
                        } else if i == end.0 && j == end.1 {
                            TileType::End
                        } else {
                            TileType::Empty
                        })
                    },
            decreases height - y,
        {
            let mut row: Vec<Tile> = Vec::with_capacity(width);
            let mut x: usize = 0;
            while x < width
                invariant
                    x <= width,
                    y < height,
                    width * height <= usize::MAX,
                    row@.len() == x,
                    forall|i: int|
                        0 <= i < x ==> {
                            let t = #[trigger] row@[i];
                            &&& t.x == i
                            &&& t.y == y
                            &&& t.id == y * width + i
                            &&& t.tile_type == (if i == start.0 && y == start.1 {
                                TileType::Start
                            } else if i == end.0 && y == end.1 {
                                TileType::End
                            } else {
                                TileType::Empty
                            })
                        },
                decreases width - x,
            {
                let tile_type = if x == start.0 && y == start.1 {
                    TileType::Start
                } else if x == end.0 && y == end.1 {
                    TileType::End
                } else {
                    TileType::Empty
                };
                proof {
                    lemma_index_bound(width as int, height as int, x as int, y as int);
                }
                let tile_id = y * width + x;
                row.push(Tile { id: tile_id, x, y, tile_type });
                x = x + 1;
            }
            tiles.push(row);
            y = y + 1;
        }
        let r = TileMap { width, height, tiles, start, end };
        assert forall|x: int, y: int| r.in_bounds(x, y) implies {
            let t = #[trigger] r.tile(x, y);
            (t.tile_type == TileType::Start <==> (x == r.start.0 && y == r.start.1)) && (
            t.tile_type == TileType::End <==> (x == r.end.0 && y == r.end.1))
        } by {
            let t = r.tiles@[y]@[x];
            assert(t == r.tile(x, y));
        }
        r
    }

    pub fn get_tile_at(&self, x: usize, y: usize) -> (r: Tile)
        requires
            self.wf(),
            self.in_bounds(x as int, y as int),
        ensures
            r == self.tile(x as int, y as int),
    {
        self.tiles[y][x]
    }

    /// The kind of the tile at `(x, y)`.
    pub fn classify(&self, x: usize, y: usize) -> (r: Result<TileType, GridError>)
        requires
            self.wf(),
        ensures
            self.in_bounds(x as int, y as int) ==> (r == Ok::<TileType, GridError>(self.kind(x as int, y as int))),
            !self.in_bounds(x as int, y as int) ==> (r == Err::<TileType, GridError>(GridError::OutOfBounds)),
    {
        if x < self.width && y < self.height {
            Ok(self.tiles[y][x].tile_type)
        } else {
            Err(GridError::OutOfBounds)
        }
    }

    /// Turns the `Empty` tile at `(x, y)` into `Floor`. Returns `Ok(true)`
    /// when the tile changed, `Ok(false)` when it was not `Empty` (and is
    /// left as it was), and `Err(OutOfBounds)` off the grid.
    pub fn set_floor(&mut self, x: usize, y: usize) -> (r: Result<bool, GridError>)
        requires
            old(self).wf(),
        ensures
            final(self).wf(),
            !old(self).in_bounds(x as int, y as int) ==> (r == Err::<bool, GridError>(GridError::OutOfBounds))
                && *final(self) == *old(self),
            old(self).in_bounds(x as int, y as int) && old(self).kind(x as int, y as int)
                != TileType::Empty ==> (r == Ok::<bool, GridError>(false)) && *final(self)
                == *old(self),
            old(self).in_bounds(x as int, y as int) && old(self).kind(x as int, y as int)
                == TileType::Empty ==> (r == Ok::<bool, GridError>(true)) && old(self).floored(
                *final(self),
                x as int,
                y as int,
            ),
    {
        if !(x < self.width && y < self.height) {
            return Err(GridError::OutOfBounds);
        }
        if self.tiles[y][x].tile_type != TileType::Empty {
            return Ok(false);
        }
        let ghost before = *self;
        let mut row = self.tiles.remove(y);
        let mut t = row[x];
        t.tile_type = TileType::Floor;
        row.set(x, t);
        self.tiles.insert(y, row);
        assert(self.tiles@ =~= before.tiles@.update(y as int, row));
        assert forall|i: int, j: int| self.in_bounds(i, j) implies {
            let t = #[trigger] self.tile(i, j);
            &&& t.x == i
            &&& t.y == j
            &&& t.id == self.index_of(i, j)
            &&& (t.tile_type == TileType::Start <==> (i == self.start.0 && j == self.start.1))
            &&& (t.tile_type == TileType::End <==> (i == self.end.0 && j == self.end.1))
        } by {
            assert(before.tile(i, j) == before.tiles@[j]@[i]);
        }
        Ok(true)
    }
}

/// Building on an `Empty` tile makes it `Floor`, and building there again
/// then changes nothing: the tile is no longer `Empty`.
pub proof fn lemma_floor_round_trip(before: TileMap, after: TileMap, x: int, y: int)
    requires
        before.wf(),
        after.wf(),
        before.in_bounds(x, y),
        before.kind(x, y) == TileType::Empty,
        before.floored(after, x, y),
    ensures
        after.in_bounds(x, y),
        after.kind(x, y) == TileType::Floor,
        after.kind(x, y) != TileType::Empty,
{
}

/// The session's map: `WIDTH` by `HEIGHT` tiles, `Start` in the lower left
/// corner, `End` in the opposite one, all others `Empty`.
pub fn map_setup() -> (r: TileMap)
    ensures
        r.wf(),
        r.width == WIDTH,
        r.height == HEIGHT,
        r.start == (0usize, 0usize),
        r.end == ((WIDTH - 1) as usize, (HEIGHT - 1) as usize),
        forall|x: int, y: int|
            r.in_bounds(x, y) && !(x == 0 && y == 0) && !(x == WIDTH - 1 && y == HEIGHT - 1)
                ==> #[trigger] r.kind(x, y) == TileType::Empty,
{
    TileMap::new(WIDTH, HEIGHT, (0, 0), (WIDTH - 1, HEIGHT - 1))
}

} // verus!
