//! Binary space partitioning with corridors: grow a pool of candidate
//! rectangles by quadrant splits, accept random sub-rectangles whose
//! two-cell margin is still all Wall, stamp them, and chain-connect the
//! accepted rooms in left-edge order.

use vstd::prelude::*;

use std::collections::VecDeque;

use crate::algorithms::Param;
use crate::common::all_tile;
use crate::common::apply_room_to_map;
use crate::common::carve_corridor;
use crate::common::grid_complete;
use crate::common::grid_matches;
use crate::common::history_complete;
use crate::common::pairwise_non_intersecting;
use crate::common::room_interior;
use crate::common::room_stamped;
use crate::common::sort_rooms_by_left;
use crate::common::tile_at;
use crate::connectivity::floor_at;
use crate::connectivity::in_grid;
use crate::connectivity::lemma_reach_along_column;
use crate::connectivity::lemma_reach_along_corridor;
use crate::connectivity::lemma_reach_along_row;
use crate::connectivity::lemma_reachable_mono;
use crate::connectivity::lemma_reachable_widen;
use crate::connectivity::reachable_n;
use crate::grid::Grid;
use crate::grid::TileType;
use crate::grid::lemma_coords_to_index;
use crate::rect::Rect;
use crate::rect::spec_intersect;
use crate::rng::RandomSource;

verus! {

/// An accepted BSP room: its two-cell margin was inside the map's one-cell
/// border when it was accepted, and it spans at least two cells per axis.
pub open spec fn bsp_room_ok(r: Rect, w: int, h: int) -> bool {
    &&& 3 <= r.x1
    &&& r.x1 + 2 <= r.x2
    &&& r.x2 <= w - 4
    &&& 3 <= r.y1
    &&& r.y1 + 2 <= r.y2
    &&& r.y2 <= h - 4
}

/// Half of the extent from `lo` to `hi`, at least one cell.
pub open spec fn half_extent(lo: int, hi: int) -> int {
    if (hi - lo) / 2 > 1 {
        (hi - lo) / 2
    } else {
        1
    }
}

/// The largest side a sub-rectangle drawn inside an extent can get: one
/// below the extent capped at ten, and at least four.
pub open spec fn side_cap(extent: int) -> int {
    let c = if extent < 10 {
        extent
    } else {
        10
    };
    if c - 1 > 4 {
        c - 1
    } else {
        4
    }
}

/// The step budget within which the corridor chain joins the room at
/// position `k` to the first room.
pub open spec fn bsp_budget(w: int, h: int, k: int) -> nat {
    ((w + h) * 4 * (k + 1)) as nat
}

/// Every accepted room's inner corner is joined to the first room's inner
/// corner by 4-directional Floor-to-Floor steps: the chained corridors
/// connect every generated room.
pub open spec fn bsp_rooms_connected(g: Grid, rooms: Seq<Rect>, w: int, h: int) -> bool {
    forall|k: int|
        0 <= k < rooms.len() ==> reachable_n(
            g.tiles@,
            w,
            h,
            rooms[0].x1 + 1,
            rooms[0].y1 + 1,
            (#[trigger] rooms[k]).x1 + 1,
            rooms[k].y1 + 1,
            bsp_budget(w, h, k),
        )
}

/// A cell the margin scan accepts: it lies strictly inside the map's
/// one-cell border and does not hold Floor (an unset cell passes, as the
/// acceptance test only rejects already-carved ground).
pub open spec fn margin_cell_ok(g: Grid, x: int, y: int) -> bool {
    &&& 1 <= x <= g.width - 2
    &&& 1 <= y <= g.height - 2
    &&& tile_at(g, x, y) != Some(TileType::Floor)
}

/// A candidate-pool rectangle: ordered non-negative bounds, below the given
/// caps.
pub open spec fn pool_rect_ok(r: Rect, capx: int, capy: int) -> bool {
    &&& 0 <= r.x1 <= r.x2 <= capx
    &&& 0 <= r.y1 <= r.y2 <= capy
}

pub struct BspMap {
    pub map: Grid,
    pub rooms: Vec<Rect>,
    pub rects: Vec<Rect>,
    pub snapshots: Vec<Grid>,
}

impl Default for BspMap {
    fn default() -> (r: BspMap)
        ensures
            r.map.width == 0,
            r.map.height == 0,
            r.map.tiles@.len() == 0,
            r.rooms@.len() == 0,
            r.rects@.len() == 0,
            r.snapshots@.len() == 0,
    {
        BspMap {
            map: Grid::default(),
            rooms: Vec::new(),
            rects: Vec::new(),
            snapshots: Vec::new(),
        }
    }
}

impl BspMap {
    /// Appends an independent copy of the live map to the history.
    pub fn take_snapshot(&mut self)
        ensures
            final(self).map == old(self).map,
            final(self).rooms == old(self).rooms,
            final(self).rects == old(self).rects,
            final(self).snapshots@.len() == old(self).snapshots@.len() + 1,
            forall|k: int|
                0 <= k < old(self).snapshots@.len() ==> final(self).snapshots@[k] == old(
                    self,
                ).snapshots@[k],
            grid_matches(final(self).snapshots@.last(), old(self).map),
    {
        let snap = self.map.clone();
        self.snapshots.push(snap);
    }

    /// The current map, by value.
    pub fn get_map(&self) -> (g: Grid)
        ensures
            grid_matches(g, self.map),
    {
        self.map.clone()
    }

    /// The ordered history of snapshots, by value, oldest first.
    pub fn get_snapshot_history(&self) -> (h: VecDeque<Grid>)
        ensures
            h@.len() == self.snapshots@.len(),
            forall|k: int|
                0 <= k < h@.len() ==> grid_matches(#[trigger] h@[k], self.snapshots@[k]),
    {
        let mut h: VecDeque<Grid> = VecDeque::new();
        let mut i: usize = 0;
        let n = self.snapshots.len();
        while i < n
            invariant
                i <= n,
                n == self.snapshots@.len(),
                h@.len() == i,
                forall|k: int|
                    0 <= k < i ==> grid_matches(#[trigger] h@[k], self.snapshots@[k]),
            decreases n - i,
        {
            let snap = self.snapshots[i].clone();
            h.push_back(snap);
            i = i + 1;
        }
        h
    }

    /// Runs the whole generation. The first option is the number of
    /// placement attempts.
    pub fn build_map(&mut self, width: i32, height: i32, options: &[Param], rng: &mut RandomSource)
        requires
            old(self).snapshots@.len() == 0,
            old(self).rooms@.len() == 0,
            5 <= width,
            5 <= height,
            width * height <= i32::MAX,
            options@.len() >= 1,
            options@[0].value <= 1000000,
        ensures
            grid_complete(final(self).map, width as int, height as int),
            history_complete(final(self).snapshots@, width as int, height as int),
            final(self).snapshots@.len() >= 1,
            all_tile(final(self).snapshots@[0].tiles@, TileType::Wall),
            pairwise_non_intersecting(final(self).rooms@),
            forall|k: int|
                0 <= k < final(self).rooms@.len() ==> bsp_room_ok(
                    #[trigger] final(self).rooms@[k],
                    width as int,
                    height as int,
                ),
            forall|k: int|
                0 <= k < final(self).rooms@.len() ==> room_stamped(
                    final(self).map,
                    #[trigger] final(self).rooms@[k],
                ),
            final(self).rooms@.len() == 0 ==> all_tile(final(self).map.tiles@, TileType::Wall)
                && final(self).snapshots@.len() == 1,
            bsp_rooms_connected(final(self).map, final(self).rooms@, width as int, height as int),
    {
        self.map = Grid::new(width, height);
        self.build(options[0].value, rng);
    }

    fn build(&mut self, rooms_target: i32, rng: &mut RandomSource)
        requires
            old(self).snapshots@.len() == 0,
            old(self).rooms@.len() == 0,
            old(self).map.wf(),
            5 <= old(self).map.width,
            5 <= old(self).map.height,
            rooms_target <= 1000000,
        ensures
            grid_complete(final(self).map, old(self).map.width as int, old(self).map.height as int),
            history_complete(
                final(self).snapshots@,
                old(self).map.width as int,
                old(self).map.height as int,
            ),
            final(self).snapshots@.len() >= 1,
            all_tile(final(self).snapshots@[0].tiles@, TileType::Wall),
            pairwise_non_intersecting(final(self).rooms@),
            forall|k: int|
                0 <= k < final(self).rooms@.len() ==> bsp_room_ok(
                    #[trigger] final(self).rooms@[k],
                    old(self).map.width as int,
                    old(self).map.height as int,
                ),
            forall|k: int|
                0 <= k < final(self).rooms@.len() ==> room_stamped(
                    final(self).map,
                    #[trigger] final(self).rooms@[k],
                ),
            final(self).rooms@.len() == 0 ==> all_tile(final(self).map.tiles@, TileType::Wall)
                && final(self).snapshots@.len() == 1,
            bsp_rooms_connected(
                final(self).map,
                final(self).rooms@,
                old(self).map.width as int,
                old(self).map.height as int,
            ),
    {
        let w = self.map.width;
        let h = self.map.height;
        let ghost wi = w as int;
        let ghost hi = h as int;
        let len = self.map.tiles.len();
        proof {
            assert(wi * 5 <= wi * hi && hi * 5 <= wi * hi) by (nonlinear_arith)
                requires
                    5 <= wi,
                    5 <= hi,
            ;
        }

        // Fill the whole map with Wall.
        let mut i: usize = 0;
        while i < len
            invariant
                self.map.wf(),
                self.map.width == w,
                self.map.height == h,
                wi == w as int,
                hi == h as int,
                len == self.map.tiles@.len(),
                i <= len,
                forall|k: int| 0 <= k < i ==> self.map.tiles@[k] == Some(TileType::Wall),
                self.snapshots@.len() == 0,
                self.rooms@.len() == 0,
            decreases len - i,
        {
            self.map.tiles[i] = Some(TileType::Wall);
            i = i + 1;
        }
        proof {
            assert forall|xx: int, yy: int|
                self.map.spec_in_bounds(xx, yy) implies (#[trigger] tile_at(self.map, xx, yy))
                is Some by {
                lemma_coords_to_index(wi, hi, xx, yy);
            }
            crate::common::lemma_full_from_coords(self.map);
        }
        self.take_snapshot();
        let ghost snap0 = self.snapshots@[0];

        // Seed the candidate pool with one large rectangle and its
        // quadrants. A fixed padding keeps the seed clear of the edges.
        self.rects.clear();
        let seed = Rect::new(0, 0, w - 5, h - 5);
        self.rects.push(seed);
        let first_room = self.rects[0];
        self.add_subrects(first_room);

        let mut n_rooms: i32 = 0;
        while n_rooms < rooms_target
            invariant
                self.map.wf(),
                self.map.width == w,
                self.map.height == h,
                wi == w as int,
                hi == h as int,
                5 <= w,
                5 <= h,
                wi * 5 <= wi * hi,
                hi * 5 <= wi * hi,
                0 <= n_rooms,
                rooms_target <= 1000000,
                rooms_target >= 0 ==> n_rooms <= rooms_target,
                self.map.fully_assigned(),
                self.snapshots@.len() >= 1,
                self.snapshots@[0] == snap0,
                history_complete(self.snapshots@, wi, hi),
                self.rooms@.len() == 0 ==> all_tile(self.map.tiles@, TileType::Wall)
                    && self.snapshots@.len() == 1,
                1 <= self.rects@.len(),
                self.rects@.len() <= 5 + 4 * n_rooms,
                forall|k: int|
                    0 <= k < self.rects@.len() ==> pool_rect_ok(
                        #[trigger] self.rects@[k],
                        wi + 2 * n_rooms as int + 1,
                        hi + 2 * n_rooms as int + 1,
                    ),
                pairwise_non_intersecting(self.rooms@),
                forall|k: int|
                    0 <= k < self.rooms@.len() ==> bsp_room_ok(#[trigger] self.rooms@[k], wi, hi),
                forall|k: int|
                    0 <= k < self.rooms@.len() ==> room_stamped(
                        self.map,
                        #[trigger] self.rooms@[k],
                    ),
            decreases rooms_target - n_rooms,
        {
            let rect = self.get_random_rect(rng);
            let candidate = self.get_random_sub_rect(rect, rng);

            proof {
                assert(wi * hi <= i32::MAX);
                assert(candidate.x2 <= wi + 2 * n_rooms as int + 1 + 5 + 10);
            }
            if self.is_possible(candidate) {
                let ghost pre = self.map;
                apply_room_to_map(&mut self.map, &candidate);
                proof {
                    assert forall|xx: int, yy: int|
                        self.map.spec_in_bounds(xx, yy) implies (#[trigger] tile_at(
                        self.map,
                        xx,
                        yy,
                    )) is Some by {
                        lemma_coords_to_index(wi, hi, xx, yy);
                        assert(pre.tiles@[yy * wi + xx] is Some);
                    }
                    crate::common::lemma_full_from_coords(self.map);
                    // The candidate overlaps no accepted room: any overlap
                    // cell would lie both inside an accepted room (Floor)
                    // and inside the candidate's checked margin (Wall).
                    assert forall|k: int| 0 <= k < self.rooms@.len() implies !spec_intersect(
                        candidate,
                        #[trigger] self.rooms@[k],
                    ) by {
                        let r = self.rooms@[k];
                        if spec_intersect(candidate, r) {
                            let cx = if candidate.x1 >= r.x1 + 1 {
                                candidate.x1 as int
                            } else {
                                r.x1 + 1
                            };
                            let cy = if candidate.y1 >= r.y1 + 1 {
                                candidate.y1 as int
                            } else {
                                r.y1 + 1
                            };
                            assert(room_interior(r, cx, cy));
                            assert(candidate.x1 - 2 <= cx <= candidate.x2 + 2);
                            assert(candidate.y1 - 2 <= cy <= candidate.y2 + 2);
                            assert(margin_cell_ok(pre, cx, cy));
                            assert(pre.spec_in_bounds(cx, cy));
                            assert(room_stamped(pre, r));
                            assert(tile_at(pre, cx, cy) == Some(TileType::Floor));
                        }
                    }
                    // The accepted rooms stay stamped.
                    assert forall|k: int| 0 <= k < self.rooms@.len() implies room_stamped(
                        self.map,
                        #[trigger] self.rooms@[k],
                    ) by {
                        assert(room_stamped(pre, self.rooms@[k]));
                        assert forall|xx: int, yy: int|
                            self.map.spec_in_bounds(xx, yy) && room_interior(
                                self.rooms@[k],
                                xx,
                                yy,
                            ) implies #[trigger] tile_at(self.map, xx, yy) == Some(
                            TileType::Floor,
                        ) by {
                            assert(tile_at(pre, xx, yy) == Some(TileType::Floor));
                        }
                    }
                }
                let ghost rooms0 = self.rooms@;
                self.rooms.push(candidate);
                proof {
                    assert forall|p: int, q: int|
                        0 <= p < self.rooms@.len() && 0 <= q < self.rooms@.len() && p
                            != q implies !spec_intersect(self.rooms@[p], self.rooms@[q]) by {
                        if p < rooms0.len() && q < rooms0.len() {
                            assert(!spec_intersect(rooms0[p], rooms0[q]));
                        }
                    }
                }
                self.add_subrects(rect);
                self.take_snapshot();
            }
            n_rooms = n_rooms + 1;
        }

        if self.rooms.len() == 0 {
            // No rooms were created, so we cannot make corridors.
            return ;
        }

        let ghost pre_sort = self.rooms@;
        sort_rooms_by_left(&mut self.rooms);
        proof {
            assert forall|k: int| 0 <= k < self.rooms@.len() implies room_stamped(
                self.map,
                #[trigger] self.rooms@[k],
            ) by {
                assert(pre_sort.contains(self.rooms@[k]));
                let j = choose|j: int| 0 <= j < pre_sort.len() && pre_sort[j] == self.rooms@[k];
                assert(room_stamped(self.map, pre_sort[j]));
            }
            let a0x = self.rooms@[0].x1 + 1;
            let a0y = self.rooms@[0].y1 + 1;
            assert(room_stamped(self.map, self.rooms@[0]));
            assert(room_interior(self.rooms@[0], a0x, a0y));
            assert(tile_at(self.map, a0x, a0y) == Some(TileType::Floor));
            assert(floor_at(self.map.tiles@, wi, a0x, a0y));
            assert(reachable_n(self.map.tiles@, wi, hi, a0x, a0y, a0x, a0y, 0));
            lemma_reachable_mono(
                self.map.tiles@,
                wi,
                hi,
                a0x,
                a0y,
                a0x,
                a0y,
                0,
                bsp_budget(wi, hi, 0),
            );
            assert forall|k: int| 0 <= k < self.rooms@.len() && k <= 0 implies reachable_n(
                self.map.tiles@,
                wi,
                hi,
                self.rooms@[0].x1 + 1,
                self.rooms@[0].y1 + 1,
                (#[trigger] self.rooms@[k]).x1 + 1,
                self.rooms@[k].y1 + 1,
                bsp_budget(wi, hi, k),
            ) by {
                assert(k == 0);
            }
        }

        // Connect consecutive rooms with random-point corridors.
        let n = self.rooms.len();
        let mut i: usize = 0;
        while i < n - 1
            invariant
                self.map.wf(),
                self.map.width == w,
                self.map.height == h,
                wi == w as int,
                hi == h as int,
                5 <= w,
                5 <= h,
                1 <= n,
                i <= n,
                n == self.rooms@.len(),
                self.map.fully_assigned(),
                self.snapshots@.len() >= 1,
                self.snapshots@[0] == snap0,
                history_complete(self.snapshots@, wi, hi),
                pairwise_non_intersecting(self.rooms@),
                forall|k: int|
                    0 <= k < self.rooms@.len() ==> bsp_room_ok(#[trigger] self.rooms@[k], wi, hi),
                forall|k: int|
                    0 <= k < self.rooms@.len() ==> room_stamped(
                        self.map,
                        #[trigger] self.rooms@[k],
                    ),
                forall|k: int|
                    0 <= k < n as int && k <= i as int ==> reachable_n(
                        self.map.tiles@,
                        wi,
                        hi,
                        self.rooms@[0].x1 + 1,
                        self.rooms@[0].y1 + 1,
                        (#[trigger] self.rooms@[k]).x1 + 1,
                        self.rooms@[k].y1 + 1,
                        bsp_budget(wi, hi, k),
                    ),
            decreases n - i,
        {
            let room = self.rooms[i];
            let next_room = self.rooms[i + 1];
            let start_x = rng.rand_range(room.x1 + 1, room.x2);
            let start_y = rng.rand_range(room.y1 + 1, room.y2);
            let end_x = rng.rand_range(next_room.x1 + 1, next_room.x2);
            let end_y = rng.rand_range(next_room.y1 + 1, next_room.y2);
            let ghost pre = self.map;
            carve_corridor(&mut self.map, start_x, start_y, end_x, end_y);
            proof {
                assert forall|xx: int, yy: int|
                    self.map.spec_in_bounds(xx, yy) implies (#[trigger] tile_at(
                    self.map,
                    xx,
                    yy,
                )) is Some by {
                    lemma_coords_to_index(wi, hi, xx, yy);
                    assert(pre.tiles@[yy * wi + xx] is Some);
                }
                crate::common::lemma_full_from_coords(self.map);
                assert forall|k: int| 0 <= k < self.rooms@.len() implies room_stamped(
                    self.map,
                    #[trigger] self.rooms@[k],
                ) by {
                    assert(room_stamped(pre, self.rooms@[k]));
                    assert forall|xx: int, yy: int|
                        self.map.spec_in_bounds(xx, yy) && room_interior(
                            self.rooms@[k],
                            xx,
                            yy,
                        ) implies #[trigger] tile_at(self.map, xx, yy) == Some(
                        TileType::Floor,
                    ) by {
                        assert(tile_at(pre, xx, yy) == Some(TileType::Floor));
                    }
                }
                // The new corridor joins the next room to the chain, and the
                // carve only adds Floor, so the chain so far survives.
                let a0x = self.rooms@[0].x1 + 1;
                let a0y = self.rooms@[0].y1 + 1;
                let r_i = self.rooms@[i as int];
                let r_n = self.rooms@[i as int + 1];
                assert forall|a: int, b: int|
                    in_grid(wi, hi, a, b) && #[trigger] floor_at(
                        pre.tiles@,
                        wi,
                        a,
                        b,
                    ) implies floor_at(self.map.tiles@, wi, a, b) by {
                    lemma_coords_to_index(wi, hi, a, b);
                    assert(tile_at(self.map, a, b) == tile_at(pre, a, b) || tile_at(
                        self.map,
                        a,
                        b,
                    ) == Some(TileType::Floor));
                }
                assert forall|k: int| 0 <= k < n as int && k <= i as int implies reachable_n(
                    self.map.tiles@,
                    wi,
                    hi,
                    a0x,
                    a0y,
                    (#[trigger] self.rooms@[k]).x1 + 1,
                    self.rooms@[k].y1 + 1,
                    bsp_budget(wi, hi, k),
                ) by {
                    lemma_reachable_widen(
                        pre.tiles@,
                        self.map.tiles@,
                        wi,
                        hi,
                        a0x,
                        a0y,
                        self.rooms@[k].x1 + 1,
                        self.rooms@[k].y1 + 1,
                        bsp_budget(wi, hi, k),
                    );
                }
                // walk from the chain's reach of this room's corner to the
                // corridor start, through the corridor, and on to the next
                // room's corner
                assert forall|x: int|
                    r_i.x1 + 1 <= x <= start_x as int implies #[trigger] floor_at(
                    self.map.tiles@,
                    wi,
                    x,
                    r_i.y1 + 1,
                ) by {
                    assert(room_interior(r_i, x, r_i.y1 + 1));
                    assert(tile_at(self.map, x, r_i.y1 + 1) == Some(TileType::Floor));
                }
                lemma_reach_along_row(
                    self.map.tiles@,
                    wi,
                    hi,
                    a0x,
                    a0y,
                    r_i.y1 + 1,
                    r_i.x1 + 1,
                    start_x as int,
                    bsp_budget(wi, hi, i as int),
                );
                assert forall|y: int|
                    r_i.y1 + 1 <= y <= start_y as int implies #[trigger] floor_at(
                    self.map.tiles@,
                    wi,
                    start_x as int,
                    y,
                ) by {
                    assert(room_interior(r_i, start_x as int, y));
                    assert(tile_at(self.map, start_x as int, y) == Some(TileType::Floor));
                }
                let n1 = (bsp_budget(wi, hi, i as int) + crate::common::abs_diff(
                    r_i.x1 + 1,
                    start_x as int,
                )) as nat;
                lemma_reach_along_column(
                    self.map.tiles@,
                    wi,
                    hi,
                    a0x,
                    a0y,
                    start_x as int,
                    r_i.y1 + 1,
                    start_y as int,
                    n1,
                );
                crate::common::lemma_carved_in_box(
                    start_x as int,
                    start_y as int,
                    end_x as int,
                    end_y as int,
                );
                assert forall|c: (int, int)|
                    crate::common::carved_cells(
                        start_x as int,
                        start_y as int,
                        end_x as int,
                        end_y as int,
                    ).contains(c) implies in_grid(wi, hi, c.0, c.1) && floor_at(
                    self.map.tiles@,
                    wi,
                    c.0,
                    c.1,
                ) by {
                    assert(in_grid(wi, hi, c.0, c.1));
                    assert(tile_at(self.map, c.0, c.1) == Some(TileType::Floor));
                }
                let n2 = (n1 + crate::common::abs_diff(r_i.y1 + 1, start_y as int)) as nat;
                lemma_reach_along_corridor(
                    self.map.tiles@,
                    wi,
                    hi,
                    a0x,
                    a0y,
                    start_x as int,
                    start_y as int,
                    end_x as int,
                    end_y as int,
                    n2,
                );
                assert forall|y: int|
                    r_n.y1 + 1 <= y <= end_y as int implies #[trigger] floor_at(
                    self.map.tiles@,
                    wi,
                    end_x as int,
                    y,
                ) by {
                    assert(room_interior(r_n, end_x as int, y));
                    assert(tile_at(self.map, end_x as int, y) == Some(TileType::Floor));
                }
                let n3 = (n2 + crate::common::abs_diff(start_x as int, end_x as int)
                    + crate::common::abs_diff(start_y as int, end_y as int)) as nat;
                lemma_reach_along_column(
                    self.map.tiles@,
                    wi,
                    hi,
                    a0x,
                    a0y,
                    end_x as int,
                    end_y as int,
                    r_n.y1 + 1,
                    n3,
                );
                assert forall|x: int|
                    r_n.x1 + 1 <= x <= end_x as int implies #[trigger] floor_at(
                    self.map.tiles@,
                    wi,
                    x,
                    r_n.y1 + 1,
                ) by {
                    assert(room_interior(r_n, x, r_n.y1 + 1));
                    assert(tile_at(self.map, x, r_n.y1 + 1) == Some(TileType::Floor));
                }
                let n4 = (n3 + crate::common::abs_diff(end_y as int, r_n.y1 + 1)) as nat;
                lemma_reach_along_row(
                    self.map.tiles@,
                    wi,
                    hi,
                    a0x,
                    a0y,
                    r_n.y1 + 1,
                    end_x as int,
                    r_n.x1 + 1,
                    n4,
                );
                let n5 = (n4 + crate::common::abs_diff(end_x as int, r_n.x1 + 1)) as nat;
                assert((wi + hi) * 4 * (i as int + 2) == (wi + hi) * 4 * (i as int + 1) + 4 * (wi
                    + hi)) by (nonlinear_arith);
                assert(crate::common::abs_diff(r_i.x1 + 1, start_x as int) <= wi);
                assert(crate::common::abs_diff(r_i.y1 + 1, start_y as int) <= hi);
                assert(crate::common::abs_diff(start_x as int, end_x as int) <= wi);
                assert(crate::common::abs_diff(start_y as int, end_y as int) <= hi);
                assert(crate::common::abs_diff(end_y as int, r_n.y1 + 1) <= hi);
                assert(crate::common::abs_diff(end_x as int, r_n.x1 + 1) <= wi);
                assert(n5 <= bsp_budget(wi, hi, i as int + 1));
                lemma_reachable_mono(
                    self.map.tiles@,
                    wi,
                    hi,
                    a0x,
                    a0y,
                    r_n.x1 + 1,
                    r_n.y1 + 1,
                    n5,
                    bsp_budget(wi, hi, i as int + 1),
                );
            }
            self.take_snapshot();
            i = i + 1;
        }
    }

    /// Splits the rectangle into its four half-size quadrants and adds them
    /// to the candidate pool.
    fn add_subrects(&mut self, rect: Rect)
        requires
            0 <= rect.x1 <= rect.x2,
            rect.x2 <= i32::MAX - 3,
            0 <= rect.y1 <= rect.y2,
            rect.y2 <= i32::MAX - 3,
        ensures
            final(self).map == old(self).map,
            final(self).rooms == old(self).rooms,
            final(self).snapshots == old(self).snapshots,
            final(self).rects@.len() == old(self).rects@.len() + 4,
            forall|k: int|
                0 <= k < old(self).rects@.len() ==> final(self).rects@[k] == old(self).rects@[k],
            forall|k: int|
                old(self).rects@.len() <= k < final(self).rects@.len() ==> pool_rect_ok(
                    #[trigger] final(self).rects@[k],
                    rect.x2 + 2,
                    rect.y2 + 2,
                ),
            ({
                let n = old(self).rects@.len() as int;
                let hw = half_extent(rect.x1 as int, rect.x2 as int);
                let hh = half_extent(rect.y1 as int, rect.y2 as int);
                &&& final(self).rects@[n] == (Rect {
                    x1: rect.x1,
                    y1: rect.y1,
                    x2: (rect.x1 + hw) as i32,
                    y2: (rect.y1 + hh) as i32,
                })
                &&& final(self).rects@[n + 1] == (Rect {
                    x1: rect.x1,
                    y1: (rect.y1 + hh) as i32,
                    x2: (rect.x1 + hw) as i32,
                    y2: (rect.y1 + 2 * hh) as i32,
                })
                &&& final(self).rects@[n + 2] == (Rect {
                    x1: (rect.x1 + hw) as i32,
                    y1: rect.y1,
                    x2: (rect.x1 + 2 * hw) as i32,
                    y2: (rect.y1 + hh) as i32,
                })
                &&& final(self).rects@[n + 3] == (Rect {
                    x1: (rect.x1 + hw) as i32,
                    y1: (rect.y1 + hh) as i32,
                    x2: (rect.x1 + 2 * hw) as i32,
                    y2: (rect.y1 + 2 * hh) as i32,
                })
            }),
    {
        let width = rect.x2 - rect.x1;
        let height = rect.y2 - rect.y1;
        let half_width = if width / 2 > 1 {
            width / 2
        } else {
            1
        };
        let half_height = if height / 2 > 1 {
            height / 2
        } else {
            1
        };
        proof {
            assert(2 * (width / 2) <= width);
            assert(rect.x1 + 2 * half_width <= rect.x2 + 2);
            assert(rect.y1 + 2 * half_height <= rect.y2 + 2);
        }
        self.rects.push(Rect::new(rect.x1, rect.y1, half_width, half_height));
        self.rects.push(Rect::new(rect.x1, rect.y1 + half_height, half_width, half_height));
        self.rects.push(Rect::new(rect.x1 + half_width, rect.y1, half_width, half_height));
        self.rects.push(
            Rect::new(rect.x1 + half_width, rect.y1 + half_height, half_width, half_height),
        );
    }

    /// Picks a random rectangle from the candidate pool.
    fn get_random_rect(&self, rng: &mut RandomSource) -> (r: Rect)
        requires
            1 <= self.rects@.len(),
            self.rects@.len() <= 100000000,
        ensures
            exists|k: int| 0 <= k < self.rects@.len() && self.rects@[k] == r,
    {
        if self.rects.len() == 1 {
            return self.rects[0];
        }
        let idx = (rng.rand_range(1, self.rects.len() as i32) - 1) as usize;
        self.rects[idx]
    }

    /// Derives a random sub-rectangle of `rect`, three to ten cells per
    /// axis, jittered by up to five cells from the corner.
    fn get_random_sub_rect(&self, rect: Rect, rng: &mut RandomSource) -> (r: Rect)
        requires
            0 <= rect.x1 <= rect.x2,
            rect.x2 <= i32::MAX - 20,
            0 <= rect.y1 <= rect.y2,
            rect.y2 <= i32::MAX - 20,
        ensures
            rect.x1 <= r.x1 <= rect.x1 + 5,
            rect.y1 <= r.y1 <= rect.y1 + 5,
            4 <= r.x2 - r.x1 <= side_cap(rect.x2 - rect.x1),
            4 <= r.y2 - r.y1 <= side_cap(rect.y2 - rect.y1),
            r.x2 - r.x1 <= 9,
            r.y2 - r.y1 <= 9,
    {
        let rect_width = rect.x2 - rect.x1;
        let rect_height = rect.y2 - rect.y1;

        let wcap = if rect_width < 10 {
            rect_width
        } else {
            10
        };
        let hcap = if rect_height < 10 {
            rect_height
        } else {
            10
        };
        let wdraw = if wcap > 1 {
            rng.rand_range(1, wcap) - 1
        } else {
            1
        };
        let hdraw = if hcap > 1 {
            rng.rand_range(1, hcap) - 1
        } else {
            1
        };
        let rw = if wdraw > 3 {
            wdraw + 1
        } else {
            4
        };
        let rh = if hdraw > 3 {
            hdraw + 1
        } else {
            4
        };

        let x1 = rect.x1 + rng.rand_range(1, 6) - 1;
        let y1 = rect.y1 + rng.rand_range(1, 6) - 1;
        let x2 = x1 + rw;
        let y2 = y1 + rh;

        Rect { x1, y1, x2, y2 }
    }

    /// True if and only if the rectangle, expanded by a two-cell margin,
    /// lies inside the map's one-cell border and holds no Floor cell.
    fn is_possible(&self, rect: Rect) -> (r: bool)
        requires
            self.map.wf(),
            1 <= self.map.width,
            1 <= self.map.height,
            0 <= rect.x1 <= rect.x2,
            rect.x2 <= i32::MAX - 20,
            0 <= rect.y1 <= rect.y2,
            rect.y2 <= i32::MAX - 20,
        ensures
            r == forall|x: int, y: int|
                rect.x1 - 2 <= x <= rect.x2 + 2 && rect.y1 - 2 <= y <= rect.y2 + 2
                    ==> #[trigger] margin_cell_ok(self.map, x, y),
            r ==> {
                &&& 1 <= rect.x1 - 2
                &&& rect.x2 + 2 <= self.map.width - 2
                &&& 1 <= rect.y1 - 2
                &&& rect.y2 + 2 <= self.map.height - 2
            },
    {
        let w = self.map.width;
        let h = self.map.height;
        let ghost wi = w as int;
        let ghost hi = h as int;
        let ex1 = rect.x1 - 2;
        let ex2 = rect.x2 + 2;
        let ey1 = rect.y1 - 2;
        let ey2 = rect.y2 + 2;

        let mut can_build = true;
        let mut y = ey1;
        while y <= ey2
            invariant
                self.map.wf(),
                self.map.width == w,
                self.map.height == h,
                wi == w as int,
                hi == h as int,
                ex1 == rect.x1 - 2,
                ex2 == rect.x2 + 2,
                ey1 == rect.y1 - 2,
                ey2 == rect.y2 + 2,
                -2 <= ex1 <= ex2 <= i32::MAX - 18,
                -2 <= ey1,
                ey2 <= i32::MAX - 18,
                ey1 <= y,
                y <= ey2 + 1,
                can_build == forall|xx: int, yy: int|
                    ex1 <= xx <= ex2 && ey1 <= yy < y ==> #[trigger] margin_cell_ok(
                        self.map,
                        xx,
                        yy,
                    ),
            decreases ey2 + 1 - y,
        {
            let mut x = ex1;
            while x <= ex2
                invariant
                    self.map.wf(),
                    self.map.width == w,
                    self.map.height == h,
                    wi == w as int,
                    hi == h as int,
                    ex1 == rect.x1 - 2,
                    ex2 == rect.x2 + 2,
                    ey1 == rect.y1 - 2,
                    ey2 == rect.y2 + 2,
                    -2 <= ex1 <= ex2 <= i32::MAX - 18,
                    -2 <= ey1,
                    ey2 <= i32::MAX - 18,
                    ex1 <= x,
                    x <= ex2 + 1,
                    ey1 <= y <= ey2,
                    can_build == ((forall|xx: int, yy: int|
                        ex1 <= xx <= ex2 && ey1 <= yy < y ==> #[trigger] margin_cell_ok(
                            self.map,
                            xx,
                            yy,
                        )) && (forall|xx: int|
                        ex1 <= xx < x ==> #[trigger] margin_cell_ok(self.map, xx, y as int))),
                decreases ex2 + 1 - x,
            {
                let ghost before = can_build;
                if x > w - 2 {
                    can_build = false;
                }
                if y > h - 2 {
                    can_build = false;
                }
                if x < 1 {
                    can_build = false;
                }
                if y < 1 {
                    can_build = false;
                }
                if can_build {
                    let idx = self.map.xy_idx(x, y);
                    let is_floor = match self.map.tiles[idx] {
                        Some(TileType::Floor) => true,
                        _ => false,
                    };
                    if is_floor {
                        can_build = false;
                    }
                    proof {
                        assert(can_build == margin_cell_ok(self.map, x as int, y as int));
                    }
                } else {
                    proof {
                        if before {
                            assert(!margin_cell_ok(self.map, x as int, y as int));
                        }
                    }
                }
                x = x + 1;
            }
            proof {
                if can_build {
                    assert forall|xx: int, yy: int|
                        ex1 <= xx <= ex2 && ey1 <= yy < y + 1 implies #[trigger] margin_cell_ok(
                        self.map,
                        xx,
                        yy,
                    ) by {
                        if yy == y as int {
                            assert(margin_cell_ok(self.map, xx, y as int));
                        }
                    }
                } else {
                    assert(!((forall|xx: int, yy: int|
                        ex1 <= xx <= ex2 && ey1 <= yy < y + 1 ==> #[trigger] margin_cell_ok(
                            self.map,
                            xx,
                            yy,
                        ))));
                }
            }
            y = y + 1;
        }
        proof {
            if can_build {
                assert(margin_cell_ok(self.map, ex1 as int, ey1 as int));
                assert(margin_cell_ok(self.map, ex2 as int, ey2 as int));
                assert(1 <= ex1 && ex2 <= wi - 2 && 1 <= ey1 && ey2 <= hi - 2);
            }
        }
        can_build
    }
}

} // verus!
