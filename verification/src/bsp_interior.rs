//! Binary space partitioning without corridors between gaps: the whole
//! interior is recursively split into halves, every leaf becomes a room,
//! and consecutive rooms are connected by random-point corridors.

use vstd::prelude::*;

use std::collections::VecDeque;

use crate::algorithms::Param;
use crate::common::all_tile;
use crate::common::carve_corridor;
use crate::common::grid_complete;
use crate::common::grid_matches;
use crate::common::history_complete;
use crate::common::tile_at;
use crate::grid::Grid;
use crate::grid::TileType;
use crate::grid::lemma_coords_to_index;
use crate::rect::Rect;
use crate::rng::RandomSource;

verus! {

/// `(x, y)` lies in `r` read with half-open bounds: rooms of this builder
/// cover `[x1, x2)` by `[y1, y2)`.
pub open spec fn ho_contains(r: Rect, x: int, y: int) -> bool {
    r.x1 <= x < r.x2 && r.y1 <= y < r.y2
}

/// `a` and `b` share no cell, read with half-open bounds.
pub open spec fn ho_disjoint(a: Rect, b: Rect) -> bool {
    a.x2 <= b.x1 || b.x2 <= a.x1 || a.y2 <= b.y1 || b.y2 <= a.y1
}

/// `a` lies within `b`.
pub open spec fn rect_in(a: Rect, b: Rect) -> bool {
    b.x1 <= a.x1 && a.x2 <= b.x2 && b.y1 <= a.y1 && a.y2 <= b.y2
}

/// `(x, y)` lies strictly inside the map's one-cell outer border.
pub open spec fn interior_cell(w: int, h: int, x: int, y: int) -> bool {
    1 <= x < w - 1 && 1 <= y < h - 1
}

/// `(x, y)` is covered by one of the first `upto` rectangles of `s`.
pub open spec fn covered_by(s: Seq<Rect>, upto: int, x: int, y: int) -> bool {
    exists|k: int| 0 <= k < upto && ho_contains(#[trigger] s[k], x, y)
}

/// The finished shape of this builder's map: Floor on the whole interior,
/// Wall on the one-cell outer border.
pub open spec fn interior_floor_map(g: Grid, w: int, h: int) -> bool {
    forall|x: int, y: int|
        g.spec_in_bounds(x, y) ==> #[trigger] tile_at(g, x, y) == (if interior_cell(w, h, x, y) {
            Some(TileType::Floor)
        } else {
            Some(TileType::Wall)
        })
}

/// The rectangles of `s` tile the interior of a `w` by `h` map exactly:
/// all lie inside it, no two overlap, and every interior cell is covered.
pub open spec fn partitions_interior(s: Seq<Rect>, w: int, h: int) -> bool {
    &&& forall|k: int|
        0 <= k < s.len() ==> {
            &&& 1 <= (#[trigger] s[k]).x1 <= s[k].x2 <= w - 1
            &&& 1 <= s[k].y1 <= s[k].y2 <= h - 1
        }
    &&& forall|k1: int, k2: int|
        0 <= k1 < k2 < s.len() ==> ho_disjoint(#[trigger] s[k1], #[trigger] s[k2])
    &&& forall|x: int, y: int|
        #[trigger] interior_cell(w, h, x, y) ==> exists|k: int|
            0 <= k < s.len() && ho_contains(#[trigger] s[k], x, y)
}

pub struct BspInteriorMap {
    pub map: Grid,
    pub rooms: Vec<Rect>,
    pub rects: Vec<Rect>,
    pub snapshots: Vec<Grid>,
}

impl Default for BspInteriorMap {
    fn default() -> (r: BspInteriorMap)
        ensures
            r.map.width == 0,
            r.map.height == 0,
            r.map.tiles@.len() == 0,
            r.rooms@.len() == 0,
            r.rects@.len() == 0,
            r.snapshots@.len() == 0,
    {
        BspInteriorMap {
            map: Grid::default(),
            rooms: Vec::new(),
            rects: Vec::new(),
            snapshots: Vec::new(),
        }
    }
}

impl BspInteriorMap {
    /// Appends an independent copy of the live map to the history.
    pub fn take_snapshot(&mut self)
        ensures
            final(self).map == old(self).map,
            final(self).rooms == old(self).rooms,
            final(self).rects == old(self).rects,
            final(self).snapshots@.len() == old(self).snapshots@.len() + 1,
            forall|k: int|
                0 <= k < old(self).snapshots@.len() ==> final(self).snapshots@[k] == old(
                    self,
                ).snapshots@[k],
            grid_matches(final(self).snapshots@.last(), old(self).map),
    {
        let snap = self.map.clone();
        self.snapshots.push(snap);
    }

    /// The current map, by value.
    pub fn get_map(&self) -> (g: Grid)
        ensures
            grid_matches(g, self.map),
    {
        self.map.clone()
    }

    /// The ordered history of snapshots, by value, oldest first.
    pub fn get_snapshot_history(&self) -> (h: VecDeque<Grid>)
        ensures
            h@.len() == self.snapshots@.len(),
            forall|k: int|
                0 <= k < h@.len() ==> grid_matches(#[trigger] h@[k], self.snapshots@[k]),
    {
        let mut h: VecDeque<Grid> = VecDeque::new();
        let mut i: usize = 0;
        let n = self.snapshots.len();
        while i < n
            invariant
                i <= n,
                n == self.snapshots@.len(),
                h@.len() == i,
                forall|k: int|
                    0 <= k < i ==> grid_matches(#[trigger] h@[k], self.snapshots@[k]),
            decreases n - i,
        {
            let snap = self.snapshots[i].clone();
            h.push_back(snap);
            i = i + 1;
        }
        h
    }

    /// Runs the whole generation. The options are, in order: the minimum
    /// room size and the vertical-split percentage.
    pub fn build_map(&mut self, width: i32, height: i32, options: &[Param], rng: &mut RandomSource)
        requires
            old(self).snapshots@.len() == 0,
            old(self).rooms@.len() == 0,
            3 <= width,
            3 <= height,
            width * height <= i32::MAX,
            options@.len() >= 2,
        ensures
            grid_complete(final(self).map, width as int, height as int),
            history_complete(final(self).snapshots@, width as int, height as int),
            final(self).snapshots@.len() >= 1,
            all_tile(final(self).snapshots@[0].tiles@, TileType::Wall),
            partitions_interior(final(self).rooms@, width as int, height as int),
            interior_floor_map(final(self).map, width as int, height as int),
    {
        self.map = Grid::new(width, height);
        self.build(options[0].value, options[1].value, rng);
    }

    fn build(&mut self, min_room_size: i32, split_pct: i32, rng: &mut RandomSource)
        requires
            old(self).snapshots@.len() == 0,
            old(self).rooms@.len() == 0,
            old(self).map.wf(),
            3 <= old(self).map.width,
            3 <= old(self).map.height,
        ensures
            grid_complete(final(self).map, old(self).map.width as int, old(self).map.height as int),
            history_complete(
                final(self).snapshots@,
                old(self).map.width as int,
                old(self).map.height as int,
            ),
            final(self).snapshots@.len() >= 1,
            all_tile(final(self).snapshots@[0].tiles@, TileType::Wall),
            partitions_interior(
                final(self).rooms@,
                old(self).map.width as int,
                old(self).map.height as int,
            ),
            interior_floor_map(
                final(self).map,
                old(self).map.width as int,
                old(self).map.height as int,
            ),
    {
        let w = self.map.width;
        let h = self.map.height;
        let ghost wi = w as int;
        let ghost hi = h as int;
        let len = self.map.tiles.len();

        // Fill the whole map with Wall.
        let mut i: usize = 0;
        while i < len
            invariant
                self.map.wf(),
                self.map.width == w,
                self.map.height == h,
                wi == w as int,
                hi == h as int,
                len == self.map.tiles@.len(),
                i <= len,
                forall|k: int| 0 <= k < i ==> self.map.tiles@[k] == Some(TileType::Wall),
                self.snapshots@.len() == 0,
                self.rooms@.len() == 0,
            decreases len - i,
        {
            self.map.tiles[i] = Some(TileType::Wall);
            i = i + 1;
        }
        proof {
            assert forall|xx: int, yy: int|
                self.map.spec_in_bounds(xx, yy) implies (#[trigger] tile_at(self.map, xx, yy))
                is Some by {
                lemma_coords_to_index(wi, hi, xx, yy);
            }
            crate::common::lemma_full_from_coords(self.map);
        }
        self.take_snapshot();
        let ghost snap0 = self.snapshots@[0];

        proof {
            assert forall|xx: int, yy: int|
                self.map.spec_in_bounds(xx, yy) implies #[trigger] tile_at(self.map, xx, yy)
                == Some(TileType::Wall) by {
                lemma_coords_to_index(wi, hi, xx, yy);
            }
        }

        // Split the whole interior into leaf rectangles.
        self.rects.clear();
        let interior = Rect::new(1, 1, w - 2, h - 2);
        self.add_subrects(interior, rng, min_room_size, split_pct);
        proof {
            assert forall|x: int, y: int| #[trigger] interior_cell(wi, hi, x, y) implies exists|k: int|
                0 <= k < self.rects@.len() && ho_contains(#[trigger] self.rects@[k], x, y) by {
                assert(ho_contains(interior, x, y));
            }
        }

        // Every leaf rectangle becomes a room, stamped directly.
        let n_rects = self.rects.len();
        let mut i: usize = 0;
        while i < n_rects
            invariant
                self.map.wf(),
                self.map.width == w,
                self.map.height == h,
                wi == w as int,
                hi == h as int,
                3 <= w,
                3 <= h,
                i <= n_rects,
                n_rects == self.rects@.len(),
                self.rooms@ == self.rects@.subrange(0, i as int),
                self.snapshots@.len() >= 1,
                self.snapshots@[0] == snap0,
                history_complete(self.snapshots@, wi, hi),
                forall|k: int|
                    0 <= k < self.rects@.len() ==> {
                        &&& 1 <= (#[trigger] self.rects@[k]).x1 < self.rects@[k].x2 <= wi - 1
                        &&& 1 <= self.rects@[k].y1 < self.rects@[k].y2 <= hi - 1
                    },
                forall|k1: int, k2: int|
                    0 <= k1 < k2 < self.rects@.len() ==> ho_disjoint(
                        #[trigger] self.rects@[k1],
                        #[trigger] self.rects@[k2],
                    ),
                forall|x: int, y: int|
                    #[trigger] interior_cell(wi, hi, x, y) ==> exists|k: int|
                        0 <= k < self.rects@.len() && ho_contains(#[trigger] self.rects@[k], x, y),
                forall|x: int, y: int|
                    self.map.spec_in_bounds(x, y) ==> #[trigger] tile_at(self.map, x, y) == (
                    if covered_by(self.rects@, i as int, x, y) {
                        Some(TileType::Floor)
                    } else {
                        Some(TileType::Wall)
                    }),
            decreases n_rects - i,
        {
            let room = self.rects[i];
            self.rooms.push(room);
            let ghost pre = self.map;
            stamp_leaf(&mut self.map, room);
            proof {
                assert(self.rooms@ =~= self.rects@.subrange(0, i as int + 1));
                assert forall|x: int, y: int| self.map.spec_in_bounds(x, y) implies #[trigger] tile_at(
                    self.map,
                    x,
                    y,
                ) == (if covered_by(self.rects@, i as int + 1, x, y) {
                    Some(TileType::Floor)
                } else {
                    Some(TileType::Wall)
                }) by {
                    if ho_contains(room, x, y) {
                        assert(ho_contains(self.rects@[i as int], x, y));
                        assert(covered_by(self.rects@, i as int + 1, x, y));
                    } else {
                        assert(tile_at(self.map, x, y) == tile_at(pre, x, y));
                        if covered_by(self.rects@, i as int + 1, x, y) {
                            let k = choose|k: int|
                                0 <= k < i as int + 1 && ho_contains(
                                    #[trigger] self.rects@[k],
                                    x,
                                    y,
                                );
                            assert(k != i as int);
                            assert(covered_by(self.rects@, i as int, x, y));
                        }
                    }
                }
                assert forall|x: int, y: int|
                    self.map.spec_in_bounds(x, y) implies (#[trigger] tile_at(
                    self.map,
                    x,
                    y,
                )) is Some by {}
                crate::common::lemma_full_from_coords(self.map);
            }
            self.take_snapshot();
            i = i + 1;
        }
        proof {
            assert(self.rooms@ == self.rects@);
            assert forall|x: int, y: int| self.map.spec_in_bounds(x, y) implies #[trigger] tile_at(
                self.map,
                x,
                y,
            ) == (if interior_cell(wi, hi, x, y) {
                Some(TileType::Floor)
            } else {
                Some(TileType::Wall)
            }) by {
                if covered_by(self.rects@, n_rects as int, x, y) {
                    let k = choose|k: int|
                        0 <= k < n_rects as int && ho_contains(#[trigger] self.rects@[k], x, y);
                    assert(interior_cell(wi, hi, x, y));
                }
                if interior_cell(wi, hi, x, y) {
                    assert(covered_by(self.rects@, n_rects as int, x, y));
                }
            }
            assert(interior_floor_map(self.map, wi, hi));
            assert forall|x: int, y: int|
                self.map.spec_in_bounds(x, y) implies (#[trigger] tile_at(self.map, x, y))
                is Some by {}
            crate::common::lemma_full_from_coords(self.map);
        }
        proof {
            assert(self.rooms@ == self.rects@);
        }

        if self.rooms.len() == 0 {
            // No rooms were created, so we cannot make corridors.
            return ;
        }

        // Connect consecutive rooms with random-point corridors.
        let n = self.rooms.len();
        let mut i: usize = 0;
        while i < n - 1
            invariant
                self.map.wf(),
                self.map.width == w,
                self.map.height == h,
                wi == w as int,
                hi == h as int,
                3 <= w,
                3 <= h,
                1 <= n,
                i <= n,
                n == self.rooms@.len(),
                self.map.fully_assigned(),
                self.snapshots@.len() >= 1,
                self.snapshots@[0] == snap0,
                history_complete(self.snapshots@, wi, hi),
                partitions_interior(self.rooms@, wi, hi),
                interior_floor_map(self.map, wi, hi),
                forall|k: int|
                    0 <= k < self.rooms@.len() ==> (#[trigger] self.rooms@[k]).x1
                        < self.rooms@[k].x2 && self.rooms@[k].y1 < self.rooms@[k].y2,
            decreases n - i,
        {
            proof {
                assert(1 <= (self.rooms@[i as int]).x1 <= self.rooms@[i as int].x2 <= wi - 1);
                assert(1 <= (self.rooms@[i as int + 1]).x1 <= self.rooms@[i as int + 1].x2 <= wi
                    - 1);
            }
            let room = self.rooms[i];
            let next_room = self.rooms[i + 1];
            let (start_x, start_y) = Self::random_point(&room, rng);
            let (end_x, end_y) = Self::random_point(&next_room, rng);
            proof {
                assert(1 <= start_x < wi - 1 && 1 <= start_y < hi - 1);
                assert(1 <= end_x < wi - 1 && 1 <= end_y < hi - 1);
            }
            let ghost pre = self.map;
            carve_corridor(&mut self.map, start_x, start_y, end_x, end_y);
            proof {
                crate::common::lemma_carved_in_box(
                    start_x as int,
                    start_y as int,
                    end_x as int,
                    end_y as int,
                );
                assert forall|xx: int, yy: int|
                    self.map.spec_in_bounds(xx, yy) implies #[trigger] tile_at(self.map, xx, yy)
                    == (if interior_cell(wi, hi, xx, yy) {
                    Some(TileType::Floor)
                } else {
                    Some(TileType::Wall)
                }) by {
                    if !interior_cell(wi, hi, xx, yy) {
                        assert(!crate::common::carved_cells(
                            start_x as int,
                            start_y as int,
                            end_x as int,
                            end_y as int,
                        ).contains((xx, yy)));
                        assert(tile_at(self.map, xx, yy) == tile_at(pre, xx, yy));
                    } else {
                        assert(tile_at(pre, xx, yy) == Some(TileType::Floor));
                    }
                }
                assert forall|xx: int, yy: int|
                    self.map.spec_in_bounds(xx, yy) implies (#[trigger] tile_at(
                    self.map,
                    xx,
                    yy,
                )) is Some by {}
                crate::common::lemma_full_from_coords(self.map);
            }
            self.take_snapshot();
            i = i + 1;
        }
    }

    /// A random cell of the room, clear of its last column and row where
    /// the room is wide enough.
    fn random_point(room: &Rect, rng: &mut RandomSource) -> (p: (i32, i32))
        requires
            0 <= room.x1 <= room.x2,
            0 <= room.y1 <= room.y2,
            room.x2 <= i32::MAX - 1,
            room.y2 <= i32::MAX - 1,
        ensures
            room.x1 <= p.0 <= room.x2,
            room.y1 <= p.1 <= room.y2,
            room.x1 < room.x2 ==> p.0 < room.x2,
            room.y1 < room.y2 ==> p.1 < room.y2,
    {
        let width = room.x2 - room.x1;
        let height = room.y2 - room.y1;
        let x = if width >= 2 {
            room.x1 + rng.rand_range(1, width) - 1
        } else {
            room.x1
        };
        let y = if height >= 2 {
            room.y1 + rng.rand_range(1, height) - 1
        } else {
            room.y1
        };
        (x, y)
    }

    /// Recursively splits the rectangle into two halves — the direction
    /// chosen by a weighted coin flip — until a half's relevant dimension
    /// drops to `min_room_size` or below, and pushes every leaf onto the
    /// candidate pool. The pushed leaves tile the rectangle exactly.
    fn add_subrects(
        &mut self,
        rect: Rect,
        rng: &mut RandomSource,
        min_room_size: i32,
        split_pct: i32,
    )
        requires
            0 <= rect.x1 <= rect.x2,
            0 <= rect.y1 <= rect.y2,
            rect.x2 <= i32::MAX - 1,
            rect.y2 <= i32::MAX - 1,
        ensures
            final(self).map == old(self).map,
            final(self).rooms == old(self).rooms,
            final(self).snapshots == old(self).snapshots,
            final(self).rects@.len() > old(self).rects@.len(),
            forall|k: int|
                0 <= k < old(self).rects@.len() ==> final(self).rects@[k] == old(self).rects@[k],
            forall|k: int|
                old(self).rects@.len() <= k < final(self).rects@.len() ==> rect_in(
                    #[trigger] final(self).rects@[k],
                    rect,
                ) && final(self).rects@[k].x1 <= final(self).rects@[k].x2
                    && final(self).rects@[k].y1 <= final(self).rects@[k].y2,
            forall|k1: int, k2: int|
                old(self).rects@.len() <= k1 < k2 < final(self).rects@.len() ==> ho_disjoint(
                    #[trigger] final(self).rects@[k1],
                    #[trigger] final(self).rects@[k2],
                ),
            forall|x: int, y: int|
                ho_contains(rect, x, y) ==> exists|k: int|
                    old(self).rects@.len() <= k < final(self).rects@.len() && ho_contains(
                        #[trigger] final(self).rects@[k],
                        x,
                        y,
                    ),
            rect.x1 < rect.x2 && rect.y1 < rect.y2 ==> forall|k: int|
                old(self).rects@.len() <= k < final(self).rects@.len() ==> (#[trigger] final(self).rects@[k]).x1
                    < final(self).rects@[k].x2 && final(self).rects@[k].y1
                    < final(self).rects@[k].y2,
        decreases rect.x2 - rect.x1 + rect.y2 - rect.y1,
    {
        let width = rect.x2 - rect.x1;
        let height = rect.y2 - rect.y1;
        let half_width = width / 2;
        let half_height = height / 2;

        let coin = rng.percent_roll(split_pct);
        let can_h = half_width > min_room_size && half_width >= 1;
        let can_v = half_height > min_room_size && half_height >= 1;
        let split_h = (coin && can_h) || (!can_v && can_h);
        let split_v = !split_h && can_v;

        if split_h {
            // Horizontal split: left and right halves.
            proof {
                assert(1 <= half_width && half_width < width);
            }
            let m = rect.x1 + half_width;
            let h1 = Rect { x1: rect.x1, y1: rect.y1, x2: m, y2: rect.y2 };
            let h2 = Rect { x1: m, y1: rect.y1, x2: rect.x2, y2: rect.y2 };
            let ghost len0 = self.rects@.len();
            self.add_subrects(h1, rng, min_room_size, split_pct);
            let ghost len1 = self.rects@.len();
            self.add_subrects(h2, rng, min_room_size, split_pct);
            proof {
                lemma_join_halves(self.rects@, rect, h1, h2, len0 as int, len1 as int);
            }
        } else if split_v {
            // Vertical split: top and bottom halves.
            proof {
                assert(1 <= half_height && half_height < height);
            }
            let m = rect.y1 + half_height;
            let v1 = Rect { x1: rect.x1, y1: rect.y1, x2: rect.x2, y2: m };
            let v2 = Rect { x1: rect.x1, y1: m, x2: rect.x2, y2: rect.y2 };
            let ghost len0 = self.rects@.len();
            self.add_subrects(v1, rng, min_room_size, split_pct);
            let ghost len1 = self.rects@.len();
            self.add_subrects(v2, rng, min_room_size, split_pct);
            proof {
                lemma_join_halves(self.rects@, rect, v1, v2, len0 as int, len1 as int);
            }
        } else {
            self.rects.push(rect);
            proof {
                let len0 = old(self).rects@.len() as int;
                assert(self.rects@[len0] == rect);
                assert forall|x: int, y: int| ho_contains(rect, x, y) implies exists|k: int|
                    len0 <= k < self.rects@.len() && ho_contains(
                        #[trigger] self.rects@[k],
                        x,
                        y,
                    ) by {
                    assert(ho_contains(self.rects@[len0], x, y));
                }
            }
        }
    }
}

/// Sets every cell of the room's half-open bounds to Floor and leaves
/// every other cell unchanged.
fn stamp_leaf(map: &mut Grid, room: Rect)
    requires
        old(map).wf(),
        1 <= room.x1 <= room.x2 < old(map).width,
        1 <= room.y1 <= room.y2 < old(map).height,
    ensures
        final(map).wf(),
        final(map).width == old(map).width,
        final(map).height == old(map).height,
        final(map).tiles@.len() == old(map).tiles@.len(),
        forall|x: int, y: int|
            old(map).spec_in_bounds(x, y) ==> #[trigger] tile_at(*final(map), x, y) == (
            if ho_contains(room, x, y) {
                Some(TileType::Floor)
            } else {
                tile_at(*old(map), x, y)
            }),
{
    let ghost g0 = *old(map);
    let mut y = room.y1;
    while y < room.y2
        invariant
            map.wf(),
            map.width == g0.width,
            map.height == g0.height,
            map.tiles@.len() == g0.tiles@.len(),
            1 <= room.x1 <= room.x2 < map.width,
            1 <= room.y1 <= y,
            y <= room.y2 < map.height,
            forall|xx: int, yy: int|
                g0.spec_in_bounds(xx, yy) ==> #[trigger] tile_at(*map, xx, yy) == (
                if ho_contains(room, xx, yy) && yy < y {
                    Some(TileType::Floor)
                } else {
                    tile_at(g0, xx, yy)
                }),
        decreases room.y2 - y,
    {
        let mut x = room.x1;
        while x < room.x2
            invariant
                map.wf(),
                map.width == g0.width,
                map.height == g0.height,
                map.tiles@.len() == g0.tiles@.len(),
                1 <= room.x1 <= x,
                x <= room.x2 < map.width,
                1 <= room.y1 <= y < room.y2 < map.height,
                forall|xx: int, yy: int|
                    g0.spec_in_bounds(xx, yy) ==> #[trigger] tile_at(*map, xx, yy) == (
                    if ho_contains(room, xx, yy) && (yy < y || (yy == y && xx < x)) {
                        Some(TileType::Floor)
                    } else {
                        tile_at(g0, xx, yy)
                    }),
            decreases room.x2 - x,
        {
            let ghost pre = *map;
            let idx = map.xy_idx(x, y);
            map.tiles[idx] = Some(TileType::Floor);
            proof {
                assert(map.tiles@ == pre.tiles@.update(idx as int, Some(TileType::Floor)));
                assert forall|xx: int, yy: int|
                    g0.spec_in_bounds(xx, yy) implies #[trigger] tile_at(*map, xx, yy) == (
                    if ho_contains(room, xx, yy) && (yy < y || (yy == y && xx < x + 1)) {
                        Some(TileType::Floor)
                    } else {
                        tile_at(g0, xx, yy)
                    }) by {
                    lemma_coords_to_index(g0.width as int, g0.height as int, xx, yy);
                    lemma_coords_to_index(g0.width as int, g0.height as int, x as int, y as int);
                    assert(tile_at(pre, xx, yy) == (if ho_contains(room, xx, yy) && (yy < y || (yy
                        == y && xx < x)) {
                        Some(TileType::Floor)
                    } else {
                        tile_at(g0, xx, yy)
                    }));
                    if !(xx == x as int && yy == y as int) {
                        assert(yy * g0.width + xx != y as int * g0.width + x as int);
                        assert(tile_at(*map, xx, yy) == tile_at(pre, xx, yy));
                    }
                }
            }
            x = x + 1;
        }
        y = y + 1;
    }
}

/// After splitting `rect` into the adjacent halves `h1` and `h2` and
/// collecting their leaves in `[len0, len1)` and `[len1, s.len())`, the
/// combined range `[len0, s.len())` tiles `rect`.
proof fn lemma_join_halves(s: Seq<Rect>, rect: Rect, h1: Rect, h2: Rect, len0: int, len1: int)
    requires
        0 <= len0 <= len1 <= s.len(),
        h1.x1 == rect.x1 && h1.y1 == rect.y1,
        h2.x2 == rect.x2 && h2.y2 == rect.y2,
        (h1.y2 == rect.y2 && h2.y1 == rect.y1 && h1.x2 == h2.x1 && rect.x1 <= h1.x2 <= rect.x2)
            || (h1.x2 == rect.x2 && h2.x1 == rect.x1 && h1.y2 == h2.y1 && rect.y1 <= h1.y2
            <= rect.y2),
        forall|k: int|
            len0 <= k < len1 ==> rect_in(#[trigger] s[k], h1) && s[k].x1 <= s[k].x2 && s[k].y1
                <= s[k].y2,
        forall|k: int|
            len1 <= k < s.len() ==> rect_in(#[trigger] s[k], h2) && s[k].x1 <= s[k].x2 && s[k].y1
                <= s[k].y2,
        forall|k1: int, k2: int|
            len0 <= k1 < k2 < len1 ==> ho_disjoint(#[trigger] s[k1], #[trigger] s[k2]),
        forall|k1: int, k2: int|
            len1 <= k1 < k2 < s.len() ==> ho_disjoint(#[trigger] s[k1], #[trigger] s[k2]),
        forall|x: int, y: int|
            ho_contains(h1, x, y) ==> exists|k: int|
                len0 <= k < len1 && ho_contains(#[trigger] s[k], x, y),
        forall|x: int, y: int|
            ho_contains(h2, x, y) ==> exists|k: int|
                len1 <= k < s.len() && ho_contains(#[trigger] s[k], x, y),
    ensures
        forall|k: int|
            len0 <= k < s.len() ==> rect_in(#[trigger] s[k], rect) && s[k].x1 <= s[k].x2
                && s[k].y1 <= s[k].y2,
        forall|k1: int, k2: int|
            len0 <= k1 < k2 < s.len() ==> ho_disjoint(#[trigger] s[k1], #[trigger] s[k2]),
        forall|x: int, y: int|
            ho_contains(rect, x, y) ==> exists|k: int|
                len0 <= k < s.len() && ho_contains(#[trigger] s[k], x, y),
{
    assert(ho_disjoint(h1, h2));
    assert forall|k1: int, k2: int| len0 <= k1 < k2 < s.len() implies ho_disjoint(
        #[trigger] s[k1],
        #[trigger] s[k2],
    ) by {
        if k1 < len1 && len1 <= k2 {
            assert(rect_in(s[k1], h1) && rect_in(s[k2], h2));
        }
    }
    assert forall|x: int, y: int| ho_contains(rect, x, y) implies exists|k: int|
        len0 <= k < s.len() && ho_contains(#[trigger] s[k], x, y) by {
        if ho_contains(h1, x, y) {
            let k = choose|k: int| len0 <= k < len1 && ho_contains(#[trigger] s[k], x, y);
            assert(len0 <= k < s.len() && ho_contains(s[k], x, y));
        } else {
            assert(ho_contains(h2, x, y));
            let k = choose|k: int| len1 <= k < s.len() && ho_contains(#[trigger] s[k], x, y);
            assert(len0 <= k < s.len() && ho_contains(s[k], x, y));
        }
    }
}

} // verus!
