//! The tile-indexed rectangular map: width, height, and a dense row-major
//! tile array addressed by `index = y * width + x`.

use vstd::prelude::*;

verus! {

/// One cell of the grid. A cell that has not been assigned yet is held as
/// `None` in `Grid::tiles`; every algorithm fills all cells before taking
/// its first snapshot.
#[derive(Clone, Copy, PartialEq, Eq, Structural, Debug)]
pub enum TileType {
    Floor,
    Wall,
}

/// The rectangular map. `tiles.len() == width * height` always holds after
/// construction; cell `(x, y)` lives at index `y * width + x`.
#[derive(Debug)]
pub struct Grid {
    pub tiles: Vec<Option<TileType>>,
    pub width: i32,
    pub height: i32,
}

impl Grid {
    /// Well-formedness: non-negative dimensions, the product fits in `i32`,
    /// and the tile array has exactly one cell per coordinate.
    pub open spec fn wf(self) -> bool {
        &&& 0 <= self.width
        &&& 0 <= self.height
        &&& self.width * self.height <= i32::MAX
        &&& self.tiles@.len() == self.width * self.height
    }

    /// The flat index of `(x, y)`.
    pub open spec fn spec_idx(self, x: int, y: int) -> int {
        y * self.width + x
    }

    /// `(x, y)` lies on the grid.
    pub open spec fn spec_in_bounds(self, x: int, y: int) -> bool {
        0 <= x < self.width && 0 <= y < self.height
    }

    /// Every cell has been assigned a tile kind.
    pub open spec fn fully_assigned(self) -> bool {
        forall|i: int| 0 <= i < self.tiles@.len() ==> self.tiles@[i] is Some
    }

    pub fn new(width: i32, height: i32) -> (g: Grid)
        requires
            0 <= width,
            0 <= height,
            width * height <= i32::MAX,
        ensures
            g.wf(),
            g.width == width,
            g.height == height,
            forall|i: int| 0 <= i < g.tiles@.len() ==> g.tiles@[i] is None,
    {
        let n = (width * height) as usize;
        let mut tiles: Vec<Option<TileType>> = Vec::new();
        let mut i: usize = 0;
        while i < n
            invariant
                i <= n,
                tiles@.len() == i,
                forall|k: int| 0 <= k < i ==> tiles@[k] is None,
            decreases n - i,
        {
            tiles.push(None);
            i = i + 1;
        }
        Grid { tiles, width, height }
    }

    /// Converts a flat index back to `(x, y)` coordinates.
    pub fn idx_xy(&self, idx: usize) -> (r: (i32, i32))
        requires
            self.wf(),
            self.width >= 1,
            idx < self.tiles@.len(),
        ensures
            r.0 == idx as int % self.width as int,
            r.1 == idx as int / self.width as int,
            self.spec_in_bounds(r.0 as int, r.1 as int),
            self.spec_idx(r.0 as int, r.1 as int) == idx,
    {
        proof {
            lemma_flat_index_coords(self.width as int, self.height as int, idx as int);
        }
        let x = idx as i32 % self.width;
        let y = idx as i32 / self.width;
        (x, y)
    }

    /// Converts `(x, y)` coordinates to the flat index. Out-of-range
    /// coordinates are a caller contract violation.
    pub fn xy_idx(&self, x: i32, y: i32) -> (idx: usize)
        requires
            self.wf(),
            self.spec_in_bounds(x as int, y as int),
        ensures
            idx == self.spec_idx(x as int, y as int),
            idx < self.tiles@.len(),
    {
        proof {
            lemma_index_in_range(
                self.width as int,
                self.height as int,
                x as int,
                y as int,
            );
        }
        (y * self.width + x) as usize
    }
}

/// For in-range coordinates the flat index lies in `[0, width * height)`.
pub proof fn lemma_index_in_range(w: int, h: int, x: int, y: int)
    requires
        0 <= x < w,
        0 <= y < h,
    ensures
        0 <= y * w + x < w * h,
{
    assert(0 <= y * w + x < w * h) by (nonlinear_arith)
        requires
            0 <= x < w,
            0 <= y < h,
    ;
}

/// Decomposing a flat index by `/` and `%` recovers in-range coordinates,
/// and re-composing them gives the index back: the two conversions are
/// mutual inverses.
pub proof fn lemma_flat_index_coords(w: int, h: int, idx: int)
    requires
        1 <= w,
        0 <= idx < w * h,
    ensures
        0 <= idx % w < w,
        0 <= idx / w < h,
        (idx / w) * w + (idx % w) == idx,
{
    assert(0 <= idx % w < w && 0 <= idx / w < h && (idx / w) * w + (idx % w) == idx)
        by (nonlinear_arith)
        requires
            1 <= w,
            0 <= idx < w * h,
    ;
}

/// Composing in-range coordinates into a flat index and decomposing it by
/// `/` and `%` gives the coordinates back.
pub proof fn lemma_coords_to_index(w: int, h: int, x: int, y: int)
    requires
        1 <= w,
        0 <= x < w,
        0 <= y < h,
    ensures
        (y * w + x) % w == x,
        (y * w + x) / w == y,
        0 <= y * w + x < w * h,
{
    lemma_index_in_range(w, h, x, y);
    vstd::arithmetic::div_mod::lemma_fundamental_div_mod_converse(y * w + x, w, y, x);
}

impl Clone for Grid {
    /// A deep value copy: snapshots must be independent of the live grid.
    fn clone(&self) -> (r: Grid)
        ensures
            r.width == self.width,
            r.height == self.height,
            r.tiles@ == self.tiles@,
    {
        let mut tiles: Vec<Option<TileType>> = Vec::new();
        let mut i: usize = 0;
        let n = self.tiles.len();
        while i < n
            invariant
                i <= n,
                n == self.tiles@.len(),
                tiles@.len() == i,
                forall|k: int| 0 <= k < i ==> tiles@[k] == self.tiles@[k],
        decreases n - i,
        {
            let t = self.tiles[i];
            tiles.push(t);
            i = i + 1;
        }
        proof {
            assert(tiles@ =~= self.tiles@);
        }
        Grid { tiles, width: self.width, height: self.height }
    }
}

impl Default for Grid {
    /// The empty grid that a builder holds before a run.
    fn default() -> (r: Grid)
        ensures
            r.wf(),
            r.width == 0,
            r.height == 0,
            r.tiles@.len() == 0,
    {
        Grid { tiles: Vec::new(), width: 0, height: 0 }
    }
}

/// The cell at `(x, y)` holds Wall.
pub open spec fn spec_is_wall(g: Grid, x: int, y: int) -> bool {
    g.tiles@[g.spec_idx(x, y)] == Some(TileType::Wall)
}

/// The 4-neighbour Wall bitmask of an interior cell: north 1, south 2,
/// west 4, east 8.
pub open spec fn spec_wall_mask(g: Grid, x: int, y: int) -> int {
    (if spec_is_wall(g, x, y + 1) {
        1int
    } else {
        0int
    }) + (if spec_is_wall(g, x, y - 1) {
        2int
    } else {
        0int
    }) + (if spec_is_wall(g, x - 1, y) {
        4int
    } else {
        0int
    }) + (if spec_is_wall(g, x + 1, y) {
        8int
    } else {
        0int
    })
}

/// The texture-atlas cell for a Wall neighbour bitmask.
pub open spec fn texture_for_mask(m: int) -> int {
    if m == 0 {
        9
    } else if m == 1 {
        208
    } else if m == 2 {
        210
    } else if m == 3 {
        186
    } else if m == 4 {
        181
    } else if m == 5 {
        188
    } else if m == 6 {
        187
    } else if m == 7 {
        185
    } else if m == 8 {
        198
    } else if m == 9 {
        200
    } else if m == 10 {
        201
    } else if m == 11 {
        204
    } else if m == 12 {
        205
    } else if m == 13 {
        202
    } else if m == 14 {
        203
    } else if m == 15 {
        206
    } else {
        0
    }
}

impl Grid {
    /// True iff the in-bounds cell `(x, y)` holds Wall.
    pub fn is_wall(&self, x: i32, y: i32) -> (r: bool)
        requires
            self.wf(),
            self.spec_in_bounds(x as int, y as int),
        ensures
            r == spec_is_wall(*self, x as int, y as int),
    {
        let idx = self.xy_idx(x, y);
        match self.tiles[idx] {
            Some(TileType::Wall) => true,
            _ => false,
        }
    }

    /// The texture-atlas cell for the wall at `(x, y)`, chosen by which of
    /// its four neighbours are walls; cells on or outside the border get
    /// the fallback cell.
    pub fn wall_texture(&self, x: i32, y: i32) -> (r: usize)
        requires
            self.wf(),
        ensures
            (1 <= x < self.width - 1 && 1 <= y < self.height - 1) ==> r == texture_for_mask(
                spec_wall_mask(*self, x as int, y as int),
            ),
            !(1 <= x < self.width - 1 && 1 <= y < self.height - 1) ==> r == 0,
    {
        if x < 1 || x > self.width - 2 || y < 1 || y > self.height - 2 {
            return 0;
        }
        let mut mask: u8 = 0;
        if self.is_wall(x, y + 1) {
            mask = mask + 1;
        }
        if self.is_wall(x, y - 1) {
            mask = mask + 2;
        }
        if self.is_wall(x - 1, y) {
            mask = mask + 4;
        }
        if self.is_wall(x + 1, y) {
            mask = mask + 8;
        }
        proof {
            assert(mask as int == spec_wall_mask(*self, x as int, y as int));
        }
        match mask {
            0 => 9,  // pillar: no wall neighbours
            1 => 208,  // wall only to the north
            2 => 210,  // wall only to the south
            3 => 186,  // walls to the north and south
            4 => 181,  // wall only to the west
            5 => 188,  // walls to the north and west
            6 => 187,  // walls to the south and west
            7 => 185,  // walls to the north, south and west
            8 => 198,  // wall only to the east
            9 => 200,  // walls to the north and east
            10 => 201,  // walls to the south and east
            11 => 204,  // walls to the north, south and east
            12 => 205,  // walls to the east and west
            13 => 202,  // walls to the east, west and south
            14 => 203,  // walls to the east, west and north
            15 => 206,  // walls on all sides
            _ => 0,
        }
    }
}

} // verus!
