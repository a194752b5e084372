use vstd::prelude::*;
use vstd::arithmetic::div_mod::{
    lemma_fundamental_div_mod, lemma_fundamental_div_mod_converse,
};
use crate::TileType;
use crate::is_traversable;

verus! {

broadcast use vstd::seq_lib::lemma_seq_contains_after_push;

/// Errors raised by the grid and by map generation.
#[derive(Clone, Copy, PartialEq, Eq, Structural, Debug)]
pub enum MapError {
    /// A grid was requested with a zero width or height.
    InvalidDimensions,
    /// A coordinate lies outside the grid.
    OutOfBounds,
    /// No floor tile besides the start is reachable from the start.
    DisconnectedMap,
    /// Every carving attempt produced a disconnected map.
    MapGenerationFailed,
}

/// Row-major linear index of the cell at column `x`, row `y`.
pub open spec fn index_at(width: int, x: int, y: int) -> int {
    y * width + x
}

/// Column of the cell with linear index `idx`.
pub open spec fn col_of(width: int, idx: int) -> int {
    idx % width
}

/// Row of the cell with linear index `idx`.
pub open spec fn row_of(width: int, idx: int) -> int {
    idx / width
}

/// Two linear indices denote orthogonally touching cells of a
/// `width` x `height` grid.  Vertical neighbours differ by one full
/// row; horizontal neighbours differ by one and sit in the same row,
/// which the `% width` conditions enforce at the row seams.
pub open spec fn adjacent(width: int, height: int, a: int, b: int) -> bool {
    &&& 0 <= a < width * height
    &&& 0 <= b < width * height
    &&& {
        ||| b == a - width
        ||| b == a + width
        ||| (b == a - 1 && a % width != 0)
        ||| (b == a + 1 && b % width != 0)
    }
}

/// The round trip from a coordinate pair to its linear index and back
/// is the identity, and the index stays inside the grid.
pub proof fn lemma_point_index_round_trip(width: int, height: int, x: int, y: int)
    requires
        1 <= width,
        0 <= x < width,
        0 <= y < height,
    ensures
        0 <= index_at(width, x, y) < width * height,
        col_of(width, index_at(width, x, y)) == x,
        row_of(width, index_at(width, x, y)) == y,
{
    lemma_fundamental_div_mod_converse(y * width + x, width, y, x);
    assert(y * width + x < width * height) by (nonlinear_arith)
        requires
            1 <= width,
            0 <= x < width,
            0 <= y < height,
    ;
}

/// The round trip from a linear index to its coordinate pair and back
/// is the identity, and both coordinates lie inside the grid.
pub proof fn lemma_index_point_round_trip(width: int, height: int, idx: int)
    requires
        1 <= width,
        0 <= idx < width * height,
    ensures
        0 <= col_of(width, idx) < width,
        0 <= row_of(width, idx) < height,
        index_at(width, col_of(width, idx), row_of(width, idx)) == idx,
{
    lemma_fundamental_div_mod(idx, width);
    assert(width * (idx / width) == (idx / width) * width) by (nonlinear_arith);
    assert(0 <= idx / width < height && 0 <= idx % width < width) by (nonlinear_arith)
        requires
            1 <= width,
            0 <= idx < width * height,
    ;
}

/// A rectangular grid of tiles, stored row-major.
pub struct TileMap {
    pub tiles: Vec<TileType>,
    pub width: usize,
    pub height: usize,
}

impl TileMap {
    /// The tile storage matches the stated dimensions; the sentinel
    /// value `usize::MAX` must stay free for the flood fill.
    pub open spec fn wf(self) -> bool {
        &&& 1 <= self.width
        &&& 1 <= self.height
        &&& self.tiles@.len() == self.width * self.height
        &&& self.tiles@.len() < usize::MAX
    }

    /// A grid fully initialised to `Wall`, so nothing is traversable
    /// before carving.
    pub fn new(width: usize, height: usize) -> (m: TileMap)
        requires
            1 <= width,
            1 <= height,
            width * height < usize::MAX,
        ensures
            m.wf(),
            m.width == width,
            m.height == height,
            forall|i: int| 0 <= i < m.tiles@.len() ==> m.tiles@[i] == TileType::Wall,
    {
        proof {
            assert(width * height >= 1) by (nonlinear_arith)
                requires 1 <= width && 1 <= height,
            ;
        }
        let n = width * height;
        let mut tiles: Vec<TileType> = Vec::new();
        let mut i: usize = 0;
        while i < n
            invariant
                i <= n,
                tiles@.len() == i,
                forall|j: int| 0 <= j < i ==> tiles@[j] == TileType::Wall,
            decreases n - i,
        {
            tiles.push(TileType::Wall);
            i += 1;
        }
        TileMap { tiles, width, height }
    }

    /// A grid checked at run time: zero dimensions are reported as
    /// `InvalidDimensions`, every other request yields the all-wall grid.
    pub fn try_new(width: usize, height: usize) -> (r: Result<TileMap, MapError>)
        requires
            width * height < usize::MAX,
        ensures
            r is Ok <==> (1 <= width && 1 <= height),
            r is Err ==> r == Err::<TileMap, MapError>(MapError::InvalidDimensions),
            r matches Ok(m) ==> {
                &&& m.wf()
                &&& m.width == width
                &&& m.height == height
                &&& forall|i: int| 0 <= i < m.tiles@.len() ==> m.tiles@[i] == TileType::Wall
            },
    {
        if width == 0 || height == 0 {
            Err(MapError::InvalidDimensions)
        } else {
            Ok(TileMap::new(width, height))
        }
    }

    pub fn width(&self) -> (w: usize)
        ensures
            w == self.width,
    {
        self.width
    }

    pub fn height(&self) -> (h: usize)
        ensures
            h == self.height,
    {
        self.height
    }

    pub fn in_bounds(&self, x: usize, y: usize) -> (r: bool)
        ensures
            r <==> (x < self.width && y < self.height),
    {
        x < self.width && y < self.height
    }

    /// Linear index of an in-bounds coordinate pair.
    pub fn point_to_index(&self, x: usize, y: usize) -> (idx: usize)
        requires
            self.wf(),
            x < self.width,
            y < self.height,
        ensures
            idx == index_at(self.width as int, x as int, y as int),
            idx < self.tiles@.len(),
            col_of(self.width as int, idx as int) == x,
            row_of(self.width as int, idx as int) == y,
    {
        proof {
            lemma_point_index_round_trip(
                self.width as int, self.height as int, x as int, y as int,
            );
        }
        y * self.width + x
    }

    /// Coordinate pair of an in-range linear index.
    pub fn index_to_point(&self, idx: usize) -> (p: (usize, usize))
        requires
            self.wf(),
            idx < self.tiles@.len(),
        ensures
            p.0 == col_of(self.width as int, idx as int),
            p.1 == row_of(self.width as int, idx as int),
            p.0 < self.width,
            p.1 < self.height,
            index_at(self.width as int, p.0 as int, p.1 as int) == idx,
    {
        proof {
            lemma_index_point_round_trip(self.width as int, self.height as int, idx as int);
        }
        (idx % self.width, idx / self.width)
    }

    /// The tile at an in-bounds coordinate.
    pub fn tile_at(&self, x: usize, y: usize) -> (t: TileType)
        requires
            self.wf(),
            x < self.width,
            y < self.height,
        ensures
            t == self.tiles@[index_at(self.width as int, x as int, y as int)],
    {
        let idx = self.point_to_index(x, y);
        self.tiles[idx]
    }

    /// The range-checked tile lookup: `OutOfBounds` exactly when the
    /// coordinate lies outside the grid.
    pub fn try_tile_at(&self, x: usize, y: usize) -> (r: Result<TileType, MapError>)
        requires
            self.wf(),
        ensures
            r is Ok <==> (x < self.width && y < self.height),
            r is Err ==> r == Err::<TileType, MapError>(MapError::OutOfBounds),
            r matches Ok(t) ==> t == self.tiles@[index_at(self.width as int, x as int, y as int)],
    {
        if self.in_bounds(x, y) {
            Ok(self.tile_at(x, y))
        } else {
            Err(MapError::OutOfBounds)
        }
    }

    /// Overwrite one tile; used by the builder while carving.
    pub fn set_tile(&mut self, x: usize, y: usize, t: TileType)
        requires
            old(self).wf(),
            x < old(self).width,
            y < old(self).height,
        ensures
            final(self).wf(),
            final(self).width == old(self).width,
            final(self).height == old(self).height,
            final(self).tiles@ == old(self).tiles@.update(
                index_at(old(self).width as int, x as int, y as int), t,
            ),
    {
        let idx = self.point_to_index(x, y);
        self.tiles[idx] = t;
    }

    /// The in-bounds orthogonal neighbours of `idx` that can be walked
    /// on: exactly the traversable tiles adjacent to `idx`, each once.
    /// This is the neighbour/unit-cost interface the flood fill consumes.
    pub fn traversable_neighbors(&self, idx: usize) -> (nbrs: Vec<usize>)
        requires
            self.wf(),
            idx < self.tiles@.len(),
        ensures
            forall|j: int| #![auto] 0 <= j < nbrs@.len() ==> nbrs@[j] < self.tiles@.len(),
            forall|t: int| 0 <= t < self.tiles@.len() ==> (
                nbrs@.contains(t as usize) <==> (
                    adjacent(self.width as int, self.height as int, idx as int, t)
                    && is_traversable(self.tiles@[t])
                )
            ),
            nbrs@.no_duplicates(),
    {
        let ghost w = self.width as int;
        let ghost h = self.height as int;
        proof {
            lemma_index_point_round_trip(w, h, idx as int);
            assert(self.width * self.height >= self.width) by (nonlinear_arith)
                requires 1 <= self.width && 1 <= self.height,
            ;
            assert((w * h) % w == 0) by (nonlinear_arith)
                requires 1 <= w,
            ;
        }
        let mut nbrs: Vec<usize> = Vec::new();
        // Row above.
        if idx >= self.width {
            let up = idx - self.width;
            if self.tiles[up] != TileType::Wall {
                nbrs.push(up);
            }
        }
        // Row below: `idx + width` stays a valid index.
        if idx < self.tiles.len() - self.width {
            let down = idx + self.width;
            if self.tiles[down] != TileType::Wall {
                nbrs.push(down);
            }
        }
        // Same row, one column left: not at a row seam.
        if idx % self.width != 0 {
            let left = idx - 1;
            if self.tiles[left] != TileType::Wall {
                nbrs.push(left);
            }
        }
        // Same row, one column right: the successor is not at a seam.
        if (idx + 1) % self.width != 0 {
            proof {
                if idx + 1 == self.tiles@.len() {
                    assert((idx + 1) % (self.width as int) == 0);
                }
            }
            let right = idx + 1;
            if self.tiles[right] != TileType::Wall {
                nbrs.push(right);
            }
        }
        nbrs
    }
}

} // verus!
