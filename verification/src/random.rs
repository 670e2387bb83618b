//! Uniform-random walls: fill the map with Floor, stamp the outer border
//! Wall, then scatter random interior Wall cells.

use vstd::prelude::*;

use std::collections::VecDeque;

use crate::algorithms::Param;
use crate::common::all_tile;
use crate::common::border_stamp;
use crate::common::grid_complete;
use crate::common::grid_matches;
use crate::common::history_complete;
use crate::common::on_border;
use crate::common::tile_at;
use crate::grid::Grid;
use crate::grid::TileType;
use crate::grid::lemma_coords_to_index;
use crate::rng::RandomSource;

verus! {

/// How many of the first `upto` cells are interior Wall cells.
pub open spec fn interior_walls_upto(
    t: Seq<Option<TileType>>,
    w: int,
    h: int,
    upto: int,
) -> int
    decreases upto,
{
    if upto <= 0 {
        0
    } else {
        interior_walls_upto(t, w, h, upto - 1) + (if !on_border(w, h, (upto - 1) % w, (upto - 1)
            / w) && t[upto - 1] == Some(TileType::Wall) {
            1int
        } else {
            0int
        })
    }
}

/// The number of interior Wall cells of the whole tile array.
pub open spec fn interior_walls(t: Seq<Option<TileType>>, w: int, h: int) -> int {
    interior_walls_upto(t, w, h, t.len() as int)
}

/// The count is never negative.
proof fn lemma_interior_walls_nonneg(t: Seq<Option<TileType>>, w: int, h: int, upto: int)
    ensures
        interior_walls_upto(t, w, h, upto) >= 0,
    decreases upto,
{
    if upto > 0 {
        lemma_interior_walls_nonneg(t, w, h, upto - 1);
    }
}

/// With no interior Wall among the first `upto` cells the count is zero.
proof fn lemma_interior_walls_zero(t: Seq<Option<TileType>>, w: int, h: int, upto: int)
    requires
        forall|k: int|
            0 <= k < upto && !on_border(w, h, k % w, k / w) ==> #[trigger] t[k] != Some(
                TileType::Wall,
            ),
    ensures
        interior_walls_upto(t, w, h, upto) == 0,
    decreases upto,
{
    if upto > 0 {
        lemma_interior_walls_zero(t, w, h, upto - 1);
    }
}

/// One interior Wall cell among the first `upto` cells makes the count
/// positive.
proof fn lemma_interior_walls_witness(
    t: Seq<Option<TileType>>,
    w: int,
    h: int,
    upto: int,
    j: int,
)
    requires
        0 <= j < upto,
        !on_border(w, h, j % w, j / w),
        t[j] == Some(TileType::Wall),
    ensures
        interior_walls_upto(t, w, h, upto) >= 1,
    decreases upto,
{
    lemma_interior_walls_nonneg(t, w, h, upto - 1);
    if j < upto - 1 {
        lemma_interior_walls_witness(t, w, h, upto - 1, j);
    }
}

/// Writing Wall to one cell raises the count by one if the cell is an
/// interior non-Wall cell, and leaves it unchanged otherwise.
proof fn lemma_interior_walls_update(
    t: Seq<Option<TileType>>,
    w: int,
    h: int,
    j: int,
    upto: int,
)
    requires
        0 <= j < t.len(),
        upto <= t.len(),
    ensures
        interior_walls_upto(t.update(j, Some(TileType::Wall)), w, h, upto)
            == interior_walls_upto(t, w, h, upto) + (if j < upto && !on_border(
            w,
            h,
            j % w,
            j / w,
        ) && t[j] != Some(TileType::Wall) {
            1int
        } else {
            0int
        }),
    decreases upto,
{
    if upto > 0 {
        lemma_interior_walls_update(t, w, h, j, upto - 1);
    }
}

pub struct RandomMap {
    pub map: Grid,
    pub snapshots: Vec<Grid>,
}

impl Default for RandomMap {
    fn default() -> (r: RandomMap)
        ensures
            r.map.width == 0,
            r.map.height == 0,
            r.map.tiles@.len() == 0,
            r.snapshots@.len() == 0,
    {
        RandomMap { map: Grid::default(), snapshots: Vec::new() }
    }
}

impl RandomMap {
    /// Appends an independent copy of the live map to the history.
    pub fn take_snapshot(&mut self)
        ensures
            final(self).map == old(self).map,
            final(self).snapshots@.len() == old(self).snapshots@.len() + 1,
            forall|k: int|
                0 <= k < old(self).snapshots@.len() ==> final(self).snapshots@[k] == old(
                    self,
                ).snapshots@[k],
            grid_matches(final(self).snapshots@.last(), old(self).map),
    {
        let snap = self.map.clone();
        self.snapshots.push(snap);
    }

    /// The current map, by value.
    pub fn get_map(&self) -> (g: Grid)
        ensures
            grid_matches(g, self.map),
    {
        self.map.clone()
    }

    /// The ordered history of snapshots, by value, oldest first.
    pub fn get_snapshot_history(&self) -> (h: VecDeque<Grid>)
        ensures
            h@.len() == self.snapshots@.len(),
            forall|k: int|
                0 <= k < h@.len() ==> grid_matches(#[trigger] h@[k], self.snapshots@[k]),
    {
        let mut h: VecDeque<Grid> = VecDeque::new();
        let mut i: usize = 0;
        let n = self.snapshots.len();
        while i < n
            invariant
                i <= n,
                n == self.snapshots@.len(),
                h@.len() == i,
                forall|k: int|
                    0 <= k < i ==> grid_matches(#[trigger] h@[k], self.snapshots@[k]),
            decreases n - i,
        {
            let snap = self.snapshots[i].clone();
            h.push_back(snap);
            i = i + 1;
        }
        h
    }

    /// Runs the whole generation: a fresh grid of the given size, then the
    /// fill. The first option is the wall ratio.
    pub fn build_map(&mut self, width: i32, height: i32, options: &[Param], rng: &mut RandomSource)
        requires
            old(self).snapshots@.len() == 0,
            3 <= width,
            3 <= height,
            width * height <= i32::MAX,
            options@.len() >= 1,
            options@[0].value >= 1,
        ensures
            grid_complete(final(self).map, width as int, height as int),
            history_complete(final(self).snapshots@, width as int, height as int),
            final(self).snapshots@.len() >= 3,
            all_tile(final(self).snapshots@[0].tiles@, TileType::Floor),
            final(self).snapshots@[2].tiles@ == border_stamp(
                final(self).snapshots@[0].tiles@,
                width as int,
                height as int,
            ),
            forall|x: int, y: int|
                final(self).map.spec_in_bounds(x, y) && on_border(width as int, height as int, x, y)
                    ==> #[trigger] tile_at(final(self).map, x, y) == Some(TileType::Wall),
            forall|x: int, y: int|
                final(self).map.spec_in_bounds(x, y) ==> #[trigger] tile_at(
                    final(self).snapshots@[1],
                    x,
                    y,
                ) == (if y == 0 || y == height as int - 1 {
                    Some(TileType::Wall)
                } else {
                    Some(TileType::Floor)
                }),
            interior_walls(final(self).map.tiles@, width as int, height as int) <= (width as int
                * height as int) / options@[0].value as int,
            (width as int * height as int) / options@[0].value as int >= 1 ==> interior_walls(
                final(self).map.tiles@,
                width as int,
                height as int,
            ) >= 1,
    {
        self.map = Grid::new(width, height);
        self.fill(options[0].value, rng);
    }

    /// Fills all Floor, stamps the border Wall row by row and column by
    /// column, then scatters `width * height / ratio` random interior Wall
    /// cells, snapshotting every tenth placement.
    fn fill(&mut self, ratio: i32, rng: &mut RandomSource)
        requires
            old(self).snapshots@.len() == 0,
            old(self).map.wf(),
            3 <= old(self).map.width,
            3 <= old(self).map.height,
            ratio >= 1,
        ensures
            grid_complete(final(self).map, old(self).map.width as int, old(self).map.height as int),
            history_complete(
                final(self).snapshots@,
                old(self).map.width as int,
                old(self).map.height as int,
            ),
            final(self).snapshots@.len() >= 3,
            all_tile(final(self).snapshots@[0].tiles@, TileType::Floor),
            final(self).snapshots@[2].tiles@ == border_stamp(
                final(self).snapshots@[0].tiles@,
                old(self).map.width as int,
                old(self).map.height as int,
            ),
            forall|x: int, y: int|
                final(self).map.spec_in_bounds(x, y) && on_border(
                    old(self).map.width as int,
                    old(self).map.height as int,
                    x,
                    y,
                ) ==> #[trigger] tile_at(final(self).map, x, y) == Some(TileType::Wall),
            forall|x: int, y: int|
                final(self).map.spec_in_bounds(x, y) ==> #[trigger] tile_at(
                    final(self).snapshots@[1],
                    x,
                    y,
                ) == (if y == 0 || y == old(self).map.height as int - 1 {
                    Some(TileType::Wall)
                } else {
                    Some(TileType::Floor)
                }),
            interior_walls(
                final(self).map.tiles@,
                old(self).map.width as int,
                old(self).map.height as int,
            ) <= (old(self).map.width as int * old(self).map.height as int) / ratio as int,
            (old(self).map.width as int * old(self).map.height as int) / ratio as int >= 1
                ==> interior_walls(
                final(self).map.tiles@,
                old(self).map.width as int,
                old(self).map.height as int,
            ) >= 1,
    {
        let w = self.map.width;
        let h = self.map.height;
        let ghost wi = w as int;
        let ghost hi = h as int;
        let len = self.map.tiles.len();

        // Fill the whole map with Floor.
        let mut i: usize = 0;
        while i < len
            invariant
                self.map.wf(),
                self.map.width == w,
                self.map.height == h,
                wi == w as int,
                hi == h as int,
                len == self.map.tiles@.len(),
                i <= len,
                forall|k: int| 0 <= k < i ==> self.map.tiles@[k] == Some(TileType::Floor),
                self.snapshots@.len() == 0,
            decreases len - i,
        {
            self.map.tiles[i] = Some(TileType::Floor);
            i = i + 1;
        }
        proof {
            assert forall|xx: int, yy: int|
                self.map.spec_in_bounds(xx, yy) implies #[trigger] tile_at(self.map, xx, yy)
                == Some(TileType::Floor) by {
                lemma_coords_to_index(wi, hi, xx, yy);
            }
            crate::common::lemma_all_tile_from_coords(self.map, TileType::Floor);
            crate::common::lemma_full_from_coords(self.map);
        }
        self.take_snapshot();

        // Fill the top and bottom edges with walls.
        let mut x: i32 = 0;
        while x < w
            invariant
                self.map.wf(),
                self.map.width == w,
                self.map.height == h,
                wi == w as int,
                hi == h as int,
                3 <= w,
                3 <= h,
                0 <= x <= w,
                self.snapshots@.len() == 1,
                all_tile(self.snapshots@[0].tiles@, TileType::Floor),
                grid_complete(self.snapshots@[0], wi, hi),
                forall|xx: int, yy: int|
                    self.map.spec_in_bounds(xx, yy) ==> #[trigger] tile_at(self.map, xx, yy) == (
                    if (yy == 0 || yy == hi - 1) && xx < x {
                        Some(TileType::Wall)
                    } else {
                        Some(TileType::Floor)
                    }),
            decreases w - x,
        {
            let ghost pre = self.map;
            let idx_top = self.map.xy_idx(x, 0);
            self.map.tiles[idx_top] = Some(TileType::Wall);
            proof {
                assert forall|xx: int, yy: int|
                    pre.spec_in_bounds(xx, yy) implies #[trigger] tile_at(self.map, xx, yy) == (
                    if yy == 0 && xx <= x as int {
                        Some(TileType::Wall)
                    } else if (yy == 0 || yy == hi - 1) && xx < x as int {
                        Some(TileType::Wall)
                    } else {
                        Some(TileType::Floor)
                    }) by {
                    lemma_coords_to_index(wi, hi, xx, yy);
                    lemma_coords_to_index(wi, hi, x as int, 0);
                    assert(tile_at(pre, xx, yy) == (if (yy == 0 || yy == hi - 1) && xx < x as int {
                        Some(TileType::Wall)
                    } else {
                        Some(TileType::Floor)
                    }));
                }
            }
            let ghost pre2 = self.map;
            let idx_bottom = self.map.xy_idx(x, h - 1);
            self.map.tiles[idx_bottom] = Some(TileType::Wall);
            proof {
                assert forall|xx: int, yy: int|
                    pre2.spec_in_bounds(xx, yy) implies #[trigger] tile_at(self.map, xx, yy) == (
                    if (yy == 0 || yy == hi - 1) && xx < x as int + 1 {
                        Some(TileType::Wall)
                    } else {
                        Some(TileType::Floor)
                    }) by {
                    lemma_coords_to_index(wi, hi, xx, yy);
                    lemma_coords_to_index(wi, hi, x as int, hi - 1);
                    assert(tile_at(pre2, xx, yy) == (if yy == 0 && xx <= x as int {
                        Some(TileType::Wall)
                    } else if (yy == 0 || yy == hi - 1) && xx < x as int {
                        Some(TileType::Wall)
                    } else {
                        Some(TileType::Floor)
                    }));
                }
            }
            x = x + 1;
        }
        proof {
            crate::common::lemma_full_from_coords(self.map);
        }
        self.take_snapshot();
        let ghost snap1 = self.snapshots@[1];
        proof {
            assert forall|xx: int, yy: int|
                self.map.spec_in_bounds(xx, yy) implies #[trigger] tile_at(snap1, xx, yy) == (
                if yy == 0 || yy == hi - 1 {
                    Some(TileType::Wall)
                } else {
                    Some(TileType::Floor)
                }) by {
                assert(snap1.tiles@ == self.map.tiles@ && snap1.width == self.map.width);
                assert(tile_at(self.map, xx, yy) == (if (yy == 0 || yy == hi - 1) && xx < wi {
                    Some(TileType::Wall)
                } else {
                    Some(TileType::Floor)
                }));
            }
        }

        // Fill the left and right edges with walls.
        let mut y: i32 = 0;
        while y < h
            invariant
                self.map.wf(),
                self.map.width == w,
                self.map.height == h,
                wi == w as int,
                hi == h as int,
                3 <= w,
                3 <= h,
                0 <= y <= h,
                self.snapshots@.len() == 2,
                all_tile(self.snapshots@[0].tiles@, TileType::Floor),
                grid_complete(self.snapshots@[0], wi, hi),
                grid_complete(self.snapshots@[1], wi, hi),
                self.snapshots@[1] == snap1,
                forall|xx: int, yy: int|
                    self.map.spec_in_bounds(xx, yy) ==> #[trigger] tile_at(snap1, xx, yy) == (
                    if yy == 0 || yy == hi - 1 {
                        Some(TileType::Wall)
                    } else {
                        Some(TileType::Floor)
                    }),
                forall|xx: int, yy: int|
                    self.map.spec_in_bounds(xx, yy) ==> #[trigger] tile_at(self.map, xx, yy) == (
                    if (yy == 0 || yy == hi - 1) || ((xx == 0 || xx == wi - 1) && yy < y) {
                        Some(TileType::Wall)
                    } else {
                        Some(TileType::Floor)
                    }),
            decreases h - y,
        {
            let ghost pre = self.map;
            let idx_left = self.map.xy_idx(0, y);
            self.map.tiles[idx_left] = Some(TileType::Wall);
            proof {
                assert forall|xx: int, yy: int|
                    pre.spec_in_bounds(xx, yy) implies #[trigger] tile_at(self.map, xx, yy) == (
                    if (yy == 0 || yy == hi - 1) || (xx == 0 && yy <= y as int) || ((xx == 0 || xx
                        == wi - 1) && yy < y as int) {
                        Some(TileType::Wall)
                    } else {
                        Some(TileType::Floor)
                    }) by {
                    lemma_coords_to_index(wi, hi, xx, yy);
                    lemma_coords_to_index(wi, hi, 0, y as int);
                    assert(tile_at(pre, xx, yy) == (if (yy == 0 || yy == hi - 1) || ((xx == 0 || xx
                        == wi - 1) && yy < y as int) {
                        Some(TileType::Wall)
                    } else {
                        Some(TileType::Floor)
                    }));
                }
            }
            let ghost pre2 = self.map;
            let idx_right = self.map.xy_idx(w - 1, y);
            self.map.tiles[idx_right] = Some(TileType::Wall);
            proof {
                assert forall|xx: int, yy: int|
                    pre2.spec_in_bounds(xx, yy) implies #[trigger] tile_at(self.map, xx, yy) == (
                    if (yy == 0 || yy == hi - 1) || ((xx == 0 || xx == wi - 1) && yy < y as int
                        + 1) {
                        Some(TileType::Wall)
                    } else {
                        Some(TileType::Floor)
                    }) by {
                    lemma_coords_to_index(wi, hi, xx, yy);
                    lemma_coords_to_index(wi, hi, wi - 1, y as int);
                    assert(tile_at(pre2, xx, yy) == (if (yy == 0 || yy == hi - 1) || (xx == 0 && yy
                        <= y as int) || ((xx == 0 || xx == wi - 1) && yy < y as int) {
                        Some(TileType::Wall)
                    } else {
                        Some(TileType::Floor)
                    }));
                }
            }
            y = y + 1;
        }
        proof {
            crate::common::lemma_full_from_coords(self.map);
        }
        self.take_snapshot();
        proof {
            let s0 = self.snapshots@[0].tiles@;
            assert(self.snapshots@[2].tiles@ =~= border_stamp(s0, wi, hi)) by {
                assert forall|j: int| 0 <= j < s0.len() implies self.snapshots@[2].tiles@[j]
                    == border_stamp(s0, wi, hi)[j] by {
                    crate::grid::lemma_flat_index_coords(wi, hi, j);
                    assert(s0[j] == Some(TileType::Floor));
                    assert(self.snapshots@[2].tiles@ == self.map.tiles@);
                    assert(tile_at(self.map, j % wi, j / wi) == self.map.tiles@[j]);
                    assert(tile_at(self.map, j % wi, j / wi) == (
                    if (j / wi == 0 || j / wi == hi - 1) || ((j % wi == 0 || j % wi == wi - 1) && j
                        / wi < hi) {
                        Some(TileType::Wall)
                    } else {
                        Some(TileType::Floor)
                    }));
                }
            }
        }

        proof {
            assert forall|k: int|
                0 <= k < self.map.tiles@.len() && !on_border(wi, hi, k % wi, k / wi) implies #[trigger] self.map.tiles@[k]
                != Some(TileType::Wall) by {
                crate::grid::lemma_flat_index_coords(wi, hi, k);
                assert(tile_at(self.map, k % wi, k / wi) == self.map.tiles@[k]);
            }
            lemma_interior_walls_zero(self.map.tiles@, wi, hi, self.map.tiles@.len() as int);
        }

        // Fill the rest of the map with random walls.
        let ghost snaps3 = self.snapshots@;
        let count = w * h / ratio;
        let mut n: i32 = 0;
        while n < count
            invariant
                self.map.wf(),
                self.map.width == w,
                self.map.height == h,
                wi == w as int,
                hi == h as int,
                3 <= w,
                3 <= h,
                ratio >= 1,
                0 <= n <= count,
                count as int == (wi * hi) / ratio as int,
                self.snapshots@.len() >= 3,
                forall|k: int| 0 <= k < 3 ==> self.snapshots@[k] == snaps3[k],
                snaps3.len() == 3,
                snaps3[1] == snap1,
                forall|xx: int, yy: int|
                    self.map.spec_in_bounds(xx, yy) ==> #[trigger] tile_at(snap1, xx, yy) == (
                    if yy == 0 || yy == hi - 1 {
                        Some(TileType::Wall)
                    } else {
                        Some(TileType::Floor)
                    }),
                0 <= interior_walls(self.map.tiles@, wi, hi),
                interior_walls(self.map.tiles@, wi, hi) <= n as int,
                n >= 1 ==> interior_walls(self.map.tiles@, wi, hi) >= 1,
                history_complete(self.snapshots@, wi, hi),
                self.map.fully_assigned(),
                forall|xx: int, yy: int|
                    self.map.spec_in_bounds(xx, yy) && on_border(wi, hi, xx, yy)
                        ==> #[trigger] tile_at(self.map, xx, yy) == Some(TileType::Wall),
            decreases count - n,
        {
            let rx = rng.rand_range(1, w - 1);
            let ry = rng.rand_range(1, h - 1);
            let ghost pre = self.map;
            let idx = self.map.xy_idx(rx, ry);
            self.map.tiles[idx] = Some(TileType::Wall);
            proof {
                lemma_coords_to_index(wi, hi, rx as int, ry as int);
                lemma_interior_walls_update(
                    pre.tiles@,
                    wi,
                    hi,
                    idx as int,
                    pre.tiles@.len() as int,
                );
                lemma_interior_walls_nonneg(pre.tiles@, wi, hi, pre.tiles@.len() as int);
                assert(!on_border(wi, hi, idx as int % wi, idx as int / wi));
                lemma_interior_walls_witness(
                    self.map.tiles@,
                    wi,
                    hi,
                    self.map.tiles@.len() as int,
                    idx as int,
                );
                assert forall|xx: int, yy: int|
                    pre.spec_in_bounds(xx, yy) && on_border(wi, hi, xx, yy) implies #[trigger] tile_at(
                    self.map,
                    xx,
                    yy,
                ) == Some(TileType::Wall) by {
                    lemma_coords_to_index(wi, hi, xx, yy);
                    lemma_coords_to_index(wi, hi, rx as int, ry as int);
                    assert(tile_at(pre, xx, yy) == Some(TileType::Wall));
                }
            }
            if n % 10 == 0 {
                self.take_snapshot();
            }
            n = n + 1;
        }
    }
}

} // verus!
