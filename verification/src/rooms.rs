//! Rooms and corridors: sample random rectangles, accept the ones that
//! overlap no accepted room, stamp them, then connect every room's center
//! to the center of the last room in left-edge order.

use vstd::prelude::*;

use std::collections::VecDeque;

use crate::algorithms::Param;
use crate::common::all_tile;
use crate::common::apply_room_to_map;
use crate::common::grid_complete;
use crate::common::grid_matches;
use crate::common::history_complete;
use crate::common::pairwise_non_intersecting;
use crate::common::room_interior;
use crate::common::room_stamped;
use crate::common::sort_rooms_by_left;
use crate::common::tile_at;
use crate::connectivity::in_grid;
use crate::connectivity::floor_at;
use crate::connectivity::lemma_reach_along_column;
use crate::connectivity::lemma_reach_along_row;
use crate::connectivity::lemma_reachable_mono;
use crate::connectivity::lemma_reachable_widen;
use crate::connectivity::reachable_n;
use crate::grid::Grid;
use crate::grid::TileType;
use crate::grid::lemma_coords_to_index;
use crate::rect::Rect;
use crate::rect::spec_intersect;
use crate::rng::RandomSource;

verus! {

/// An accepted room: its extents were sampled in `[min_size, max_size)`
/// and it lies at least three cells clear of the right and bottom edges.
pub open spec fn room_ok(r: Rect, w: int, h: int, min_size: int, max_size: int) -> bool {
    &&& 0 <= r.x1
    &&& min_size <= r.x2 - r.x1 < max_size
    &&& r.x2 <= w - 3
    &&& 0 <= r.y1
    &&& min_size <= r.y2 - r.y1 < max_size
    &&& r.y2 <= h - 3
}

/// The x coordinate of a room's corridor anchor: the truncated midpoint.
pub open spec fn room_center_x(r: Rect) -> int {
    (r.x1 + r.x2) / 2
}

/// The y coordinate of a room's corridor anchor.
pub open spec fn room_center_y(r: Rect) -> int {
    (r.y1 + r.y2) / 2
}

/// Every room's center is joined to the last room's center by
/// 4-directional Floor-to-Floor steps: the generated rooms form one
/// connected component.
pub open spec fn rooms_connected(g: Grid, rooms: Seq<Rect>, w: int, h: int) -> bool {
    forall|k: int|
        0 <= k < rooms.len() ==> reachable_n(
            g.tiles@,
            w,
            h,
            room_center_x(rooms[rooms.len() - 1]),
            room_center_y(rooms[rooms.len() - 1]),
            room_center_x(#[trigger] rooms[k]),
            room_center_y(rooms[k]),
            (w + h) as nat,
        )
}

/// A room at least two cells wide on each axis holds its center strictly
/// inside its bounds, and so strictly inside the map.
proof fn lemma_center_in_room(r: Rect, w: int, h: int, mn: int, mx: int)
    requires
        room_ok(r, w, h, mn, mx),
        mn >= 2,
    ensures
        r.x1 + 1 <= room_center_x(r) <= r.x2 - 1,
        r.y1 + 1 <= room_center_y(r) <= r.y2 - 1,
        1 <= room_center_x(r) <= w - 4,
        1 <= room_center_y(r) <= h - 4,
{
    vstd::arithmetic::div_mod::lemma_fundamental_div_mod_converse(
        2 * (r.x1 + 1),
        2,
        r.x1 + 1,
        0,
    );
    vstd::arithmetic::div_mod::lemma_fundamental_div_mod_converse(
        2 * (r.x2 - 1),
        2,
        r.x2 - 1,
        0,
    );
    vstd::arithmetic::div_mod::lemma_div_is_ordered(2 * (r.x1 + 1), r.x1 + r.x2, 2);
    vstd::arithmetic::div_mod::lemma_div_is_ordered(r.x1 + r.x2, 2 * (r.x2 - 1), 2);
    vstd::arithmetic::div_mod::lemma_fundamental_div_mod_converse(
        2 * (r.y1 + 1),
        2,
        r.y1 + 1,
        0,
    );
    vstd::arithmetic::div_mod::lemma_fundamental_div_mod_converse(
        2 * (r.y2 - 1),
        2,
        r.y2 - 1,
        0,
    );
    vstd::arithmetic::div_mod::lemma_div_is_ordered(2 * (r.y1 + 1), r.y1 + r.y2, 2);
    vstd::arithmetic::div_mod::lemma_div_is_ordered(r.y1 + r.y2, 2 * (r.y2 - 1), 2);
}

pub struct RoomsMap {
    pub map: Grid,
    pub rooms: Vec<Rect>,
    pub snapshots: Vec<Grid>,
}

impl Default for RoomsMap {
    fn default() -> (r: RoomsMap)
        ensures
            r.map.width == 0,
            r.map.height == 0,
            r.map.tiles@.len() == 0,
            r.rooms@.len() == 0,
            r.snapshots@.len() == 0,
    {
        RoomsMap { map: Grid::default(), rooms: Vec::new(), snapshots: Vec::new() }
    }
}

impl RoomsMap {
    /// Appends an independent copy of the live map to the history.
    pub fn take_snapshot(&mut self)
        ensures
            final(self).map == old(self).map,
            final(self).rooms == old(self).rooms,
            final(self).snapshots@.len() == old(self).snapshots@.len() + 1,
            forall|k: int|
                0 <= k < old(self).snapshots@.len() ==> final(self).snapshots@[k] == old(
                    self,
                ).snapshots@[k],
            grid_matches(final(self).snapshots@.last(), old(self).map),
    {
        let snap = self.map.clone();
        self.snapshots.push(snap);
    }

    /// The current map, by value.
    pub fn get_map(&self) -> (g: Grid)
        ensures
            grid_matches(g, self.map),
    {
        self.map.clone()
    }

    /// The ordered history of snapshots, by value, oldest first.
    pub fn get_snapshot_history(&self) -> (h: VecDeque<Grid>)
        ensures
            h@.len() == self.snapshots@.len(),
            forall|k: int|
                0 <= k < h@.len() ==> grid_matches(#[trigger] h@[k], self.snapshots@[k]),
    {
        let mut h: VecDeque<Grid> = VecDeque::new();
        let mut i: usize = 0;
        let n = self.snapshots.len();
        while i < n
            invariant
                i <= n,
                n == self.snapshots@.len(),
                h@.len() == i,
                forall|k: int|
                    0 <= k < i ==> grid_matches(#[trigger] h@[k], self.snapshots@[k]),
            decreases n - i,
        {
            let snap = self.snapshots[i].clone();
            h.push_back(snap);
            i = i + 1;
        }
        h
    }

    /// Runs the whole generation. The options are, in order: the number of
    /// placement attempts, the minimum room size and the maximum room size.
    pub fn build_map(&mut self, width: i32, height: i32, options: &[Param], rng: &mut RandomSource)
        requires
            old(self).snapshots@.len() == 0,
            old(self).rooms@.len() == 0,
            options@.len() >= 3,
            1 <= options@[1].value < options@[2].value,
            options@[2].value + 2 <= width,
            options@[2].value + 2 <= height,
            width * height <= i32::MAX,
        ensures
            grid_complete(final(self).map, width as int, height as int),
            history_complete(final(self).snapshots@, width as int, height as int),
            final(self).snapshots@.len() >= 1,
            all_tile(final(self).snapshots@[0].tiles@, TileType::Wall),
            pairwise_non_intersecting(final(self).rooms@),
            forall|k: int|
                0 <= k < final(self).rooms@.len() ==> room_ok(
                    #[trigger] final(self).rooms@[k],
                    width as int,
                    height as int,
                    options@[1].value as int,
                    options@[2].value as int,
                ),
            forall|k: int|
                0 <= k < final(self).rooms@.len() ==> room_stamped(
                    final(self).map,
                    #[trigger] final(self).rooms@[k],
                ),
            options@[0].value >= 0 ==> final(self).rooms@.len() <= options@[0].value,
            options@[0].value >= 1 ==> final(self).rooms@.len() >= 1,
            options@[1].value >= 2 ==> rooms_connected(
                final(self).map,
                final(self).rooms@,
                width as int,
                height as int,
            ),
    {
        self.map = Grid::new(width, height);
        self.fill(options[0].value, options[1].value, options[2].value, rng);
    }

    fn fill(&mut self, max_rooms: i32, room_min_size: i32, room_max_size: i32, rng: &mut RandomSource)
        requires
            old(self).snapshots@.len() == 0,
            old(self).rooms@.len() == 0,
            old(self).map.wf(),
            1 <= room_min_size < room_max_size,
            room_max_size + 2 <= old(self).map.width,
            room_max_size + 2 <= old(self).map.height,
        ensures
            grid_complete(final(self).map, old(self).map.width as int, old(self).map.height as int),
            history_complete(
                final(self).snapshots@,
                old(self).map.width as int,
                old(self).map.height as int,
            ),
            final(self).snapshots@.len() >= 1,
            all_tile(final(self).snapshots@[0].tiles@, TileType::Wall),
            pairwise_non_intersecting(final(self).rooms@),
            forall|k: int|
                0 <= k < final(self).rooms@.len() ==> room_ok(
                    #[trigger] final(self).rooms@[k],
                    old(self).map.width as int,
                    old(self).map.height as int,
                    room_min_size as int,
                    room_max_size as int,
                ),
            forall|k: int|
                0 <= k < final(self).rooms@.len() ==> room_stamped(
                    final(self).map,
                    #[trigger] final(self).rooms@[k],
                ),
            max_rooms >= 0 ==> final(self).rooms@.len() <= max_rooms,
            max_rooms >= 1 ==> final(self).rooms@.len() >= 1,
            room_min_size >= 2 ==> rooms_connected(
                final(self).map,
                final(self).rooms@,
                old(self).map.width as int,
                old(self).map.height as int,
            ),
    {
        let w = self.map.width;
        let h = self.map.height;
        let ghost wi = w as int;
        let ghost hi = h as int;
        let len = self.map.tiles.len();

        // Fill the whole map with Wall.
        let mut i: usize = 0;
        while i < len
            invariant
                self.map.wf(),
                self.map.width == w,
                self.map.height == h,
                wi == w as int,
                hi == h as int,
                len == self.map.tiles@.len(),
                i <= len,
                forall|k: int| 0 <= k < i ==> self.map.tiles@[k] == Some(TileType::Wall),
                self.snapshots@.len() == 0,
                self.rooms@.len() == 0,
            decreases len - i,
        {
            self.map.tiles[i] = Some(TileType::Wall);
            i = i + 1;
        }
        proof {
            assert forall|xx: int, yy: int|
                self.map.spec_in_bounds(xx, yy) implies (#[trigger] tile_at(self.map, xx, yy))
                is Some by {
                lemma_coords_to_index(wi, hi, xx, yy);
            }
            crate::common::lemma_full_from_coords(self.map);
        }
        self.take_snapshot();
        let ghost snap0 = self.snapshots@[0];

        // Sample and accept rooms.
        let mut attempt: i32 = 0;
        while attempt < max_rooms
            invariant
                self.map.wf(),
                self.map.width == w,
                self.map.height == h,
                wi == w as int,
                hi == h as int,
                1 <= room_min_size < room_max_size,
                room_max_size + 2 <= w,
                room_max_size + 2 <= h,
                0 <= attempt,
                self.rooms@.len() <= attempt,
                max_rooms >= 0 ==> attempt <= max_rooms,
                attempt >= 1 ==> self.rooms@.len() >= 1,
                self.map.fully_assigned(),
                self.snapshots@.len() >= 1,
                self.snapshots@[0] == snap0,
                history_complete(self.snapshots@, wi, hi),
                pairwise_non_intersecting(self.rooms@),
                forall|k: int|
                    0 <= k < self.rooms@.len() ==> room_ok(
                        #[trigger] self.rooms@[k],
                        wi,
                        hi,
                        room_min_size as int,
                        room_max_size as int,
                    ),
                forall|k: int|
                    0 <= k < self.rooms@.len() ==> room_stamped(
                        self.map,
                        #[trigger] self.rooms@[k],
                    ),
            decreases max_rooms - attempt,
        {
            let rw = rng.rand_range(room_min_size, room_max_size);
            let rh = rng.rand_range(room_min_size, room_max_size);
            let x = rng.rand_range(1, w - rw - 1) - 1;
            let y = rng.rand_range(1, h - rh - 1) - 1;
            let new_room = Rect::new(x, y, rw, rh);

            let mut ok = true;
            let mut j: usize = 0;
            let n_rooms = self.rooms.len();
            while j < n_rooms
                invariant
                    n_rooms == self.rooms@.len(),
                    j <= n_rooms,
                    ok == (forall|k: int|
                        0 <= k < j ==> !spec_intersect(new_room, #[trigger] self.rooms@[k])),
                decreases n_rooms - j,
            {
                if new_room.intersect(&self.rooms[j]) {
                    ok = false;
                }
                j = j + 1;
            }
            if ok {
                let ghost pre = self.map;
                apply_room_to_map(&mut self.map, &new_room);
                proof {
                    assert forall|xx: int, yy: int|
                        self.map.spec_in_bounds(xx, yy) implies (#[trigger] tile_at(
                        self.map,
                        xx,
                        yy,
                    )) is Some by {
                        lemma_coords_to_index(wi, hi, xx, yy);
                        assert(pre.tiles@[yy * wi + xx] is Some);
                    }
                    crate::common::lemma_full_from_coords(self.map);
                    assert forall|k: int| 0 <= k < self.rooms@.len() implies room_stamped(
                        self.map,
                        #[trigger] self.rooms@[k],
                    ) by {
                        assert(room_stamped(pre, self.rooms@[k]));
                        assert forall|xx: int, yy: int|
                            self.map.spec_in_bounds(xx, yy) && room_interior(
                                self.rooms@[k],
                                xx,
                                yy,
                            ) implies #[trigger] tile_at(self.map, xx, yy) == Some(
                            TileType::Floor,
                        ) by {
                            assert(tile_at(pre, xx, yy) == Some(TileType::Floor));
                        }
                    }
                    assert(room_stamped(self.map, new_room));
                }
                self.take_snapshot();
                let ghost rooms0 = self.rooms@;
                self.rooms.push(new_room);
                proof {
                    assert forall|p: int, q: int|
                        0 <= p < self.rooms@.len() && 0 <= q < self.rooms@.len() && p
                            != q implies !spec_intersect(self.rooms@[p], self.rooms@[q]) by {
                        if p < rooms0.len() && q < rooms0.len() {
                            assert(!spec_intersect(rooms0[p], rooms0[q]));
                        }
                    }
                }
            }
            attempt = attempt + 1;
        }

        if self.rooms.len() == 0 {
            // No rooms were created, so we cannot make corridors.
            return ;
        }

        let ghost pre_sort = self.rooms@;
        sort_rooms_by_left(&mut self.rooms);
        proof {
            assert forall|k: int| 0 <= k < self.rooms@.len() implies room_stamped(
                self.map,
                #[trigger] self.rooms@[k],
            ) by {
                assert(pre_sort.contains(self.rooms@[k]));
                let j = choose|j: int| 0 <= j < pre_sort.len() && pre_sort[j] == self.rooms@[k];
                assert(room_stamped(self.map, pre_sort[j]));
            }
        }

        // Connect every room's center to the center of the last room.
        let n_rooms = self.rooms.len();
        let mut i: usize = 0;
        while i < n_rooms
            invariant
                self.map.wf(),
                self.map.width == w,
                self.map.height == h,
                wi == w as int,
                hi == h as int,
                3 <= w,
                3 <= h,
                1 <= n_rooms,
                n_rooms == self.rooms@.len(),
                max_rooms >= 0 ==> n_rooms <= max_rooms,
                1 <= room_min_size < room_max_size,
                i <= n_rooms,
                self.map.fully_assigned(),
                self.snapshots@.len() >= 1,
                self.snapshots@[0] == snap0,
                history_complete(self.snapshots@, wi, hi),
                pairwise_non_intersecting(self.rooms@),
                forall|k: int|
                    0 <= k < self.rooms@.len() ==> room_ok(
                        #[trigger] self.rooms@[k],
                        wi,
                        hi,
                        room_min_size as int,
                        room_max_size as int,
                    ),
                forall|k: int|
                    0 <= k < self.rooms@.len() ==> room_stamped(
                        self.map,
                        #[trigger] self.rooms@[k],
                    ),
                room_min_size >= 2 ==> forall|k: int|
                    0 <= k < i ==> reachable_n(
                        self.map.tiles@,
                        wi,
                        hi,
                        room_center_x(self.rooms@[n_rooms - 1]),
                        room_center_y(self.rooms@[n_rooms - 1]),
                        room_center_x(#[trigger] self.rooms@[k]),
                        room_center_y(self.rooms@[k]),
                        (wi + hi) as nat,
                    ),
            decreases n_rooms - i,
        {
            let ghost pre = self.map;
            proof {
                assert(room_ok(
                    self.rooms@[i as int],
                    wi,
                    hi,
                    room_min_size as int,
                    room_max_size as int,
                ));
                assert(room_ok(
                    self.rooms@[n_rooms - 1],
                    wi,
                    hi,
                    room_min_size as int,
                    room_max_size as int,
                ));
                assert(wi * 2 <= wi * hi && hi * 2 <= wi * hi) by (nonlinear_arith)
                    requires
                        3 <= wi,
                        3 <= hi,
                ;
            }
            let room = self.rooms[i];
            let (new_x, new_y) = room.center();
            let last = self.rooms[n_rooms - 1];
            let (prev_x, prev_y) = last.center();
            proof {
                assert(0 <= new_x < w && 0 <= new_y < h && 0 <= prev_x < w && 0 <= prev_y < h);
            }
            if rng.coin_flip() {
                self.apply_horizontal_tunnel(prev_x, new_x, prev_y);
                self.take_snapshot();
                let ghost mid = self.map;
                self.apply_vertical_tunnel(prev_y, new_y, new_x);
                proof {
                    if room_min_size >= 2 {
                        let rm = self.rooms@[i as int];
                        let lr = self.rooms@[n_rooms - 1];
                        lemma_center_in_room(rm, wi, hi, room_min_size as int, room_max_size as int);
                        lemma_center_in_room(lr, wi, hi, room_min_size as int, room_max_size as int);
                        assert(new_x as int == room_center_x(rm) && new_y as int == room_center_y(
                            rm,
                        ));
                        assert(prev_x as int == room_center_x(lr) && prev_y as int
                            == room_center_y(lr));
                        assert forall|x: int|
                            (if prev_x < new_x {
                                prev_x as int
                            } else {
                                new_x as int
                            }) <= x <= (if prev_x < new_x {
                                new_x as int
                            } else {
                                prev_x as int
                            }) implies #[trigger] floor_at(
                            self.map.tiles@,
                            wi,
                            x,
                            prev_y as int,
                        ) by {
                            assert(tile_at(mid, x, prev_y as int) == Some(TileType::Floor));
                            assert(tile_at(self.map, x, prev_y as int) == Some(TileType::Floor));
                        }
                        assert forall|y: int|
                            (if prev_y < new_y {
                                prev_y as int
                            } else {
                                new_y as int
                            }) <= y <= (if prev_y < new_y {
                                new_y as int
                            } else {
                                prev_y as int
                            }) implies #[trigger] floor_at(
                            self.map.tiles@,
                            wi,
                            new_x as int,
                            y,
                        ) by {
                            assert(tile_at(self.map, new_x as int, y) == Some(TileType::Floor));
                        }
                        assert(floor_at(self.map.tiles@, wi, prev_x as int, prev_y as int));
                        assert(reachable_n(
                            self.map.tiles@,
                            wi,
                            hi,
                            prev_x as int,
                            prev_y as int,
                            prev_x as int,
                            prev_y as int,
                            0,
                        ));
                        lemma_reach_along_row(
                            self.map.tiles@,
                            wi,
                            hi,
                            prev_x as int,
                            prev_y as int,
                            prev_y as int,
                            prev_x as int,
                            new_x as int,
                            0,
                        );
                        lemma_reach_along_column(
                            self.map.tiles@,
                            wi,
                            hi,
                            prev_x as int,
                            prev_y as int,
                            new_x as int,
                            prev_y as int,
                            new_y as int,
                            crate::common::abs_diff(prev_x as int, new_x as int) as nat,
                        );
                        lemma_reachable_mono(
                            self.map.tiles@,
                            wi,
                            hi,
                            prev_x as int,
                            prev_y as int,
                            new_x as int,
                            new_y as int,
                            (crate::common::abs_diff(prev_x as int, new_x as int)
                                + crate::common::abs_diff(prev_y as int, new_y as int)) as nat,
                            (wi + hi) as nat,
                        );
                        assert forall|a: int, b: int|
                            in_grid(wi, hi, a, b) && #[trigger] floor_at(
                                pre.tiles@,
                                wi,
                                a,
                                b,
                            ) implies floor_at(self.map.tiles@, wi, a, b) by {
                            lemma_coords_to_index(wi, hi, a, b);
                            assert(tile_at(self.map, a, b) == Some(TileType::Floor) || tile_at(
                                self.map,
                                a,
                                b,
                            ) == tile_at(mid, a, b));
                            assert(tile_at(mid, a, b) == Some(TileType::Floor) || tile_at(
                                mid,
                                a,
                                b,
                            ) == tile_at(pre, a, b));
                        }
                        assert forall|k: int| 0 <= k < i + 1 implies reachable_n(
                            self.map.tiles@,
                            wi,
                            hi,
                            room_center_x(self.rooms@[n_rooms - 1]),
                            room_center_y(self.rooms@[n_rooms - 1]),
                            room_center_x(#[trigger] self.rooms@[k]),
                            room_center_y(self.rooms@[k]),
                            (wi + hi) as nat,
                        ) by {
                            if k < i {
                                lemma_reachable_widen(
                                    pre.tiles@,
                                    self.map.tiles@,
                                    wi,
                                    hi,
                                    room_center_x(lr),
                                    room_center_y(lr),
                                    room_center_x(self.rooms@[k]),
                                    room_center_y(self.rooms@[k]),
                                    (wi + hi) as nat,
                                );
                            }
                        }
                    }
                }
            } else {
                self.apply_vertical_tunnel(prev_y, new_y, prev_x);
                self.take_snapshot();
                let ghost mid = self.map;
                self.apply_horizontal_tunnel(prev_x, new_x, new_y);
                proof {
                    if room_min_size >= 2 {
                        let rm = self.rooms@[i as int];
                        let lr = self.rooms@[n_rooms - 1];
                        lemma_center_in_room(rm, wi, hi, room_min_size as int, room_max_size as int);
                        lemma_center_in_room(lr, wi, hi, room_min_size as int, room_max_size as int);
                        assert(new_x as int == room_center_x(rm) && new_y as int == room_center_y(
                            rm,
                        ));
                        assert(prev_x as int == room_center_x(lr) && prev_y as int
                            == room_center_y(lr));
                        assert forall|y: int|
                            (if prev_y < new_y {
                                prev_y as int
                            } else {
                                new_y as int
                            }) <= y <= (if prev_y < new_y {
                                new_y as int
                            } else {
                                prev_y as int
                            }) implies #[trigger] floor_at(
                            self.map.tiles@,
                            wi,
                            prev_x as int,
                            y,
                        ) by {
                            assert(tile_at(mid, prev_x as int, y) == Some(TileType::Floor));
                            assert(tile_at(self.map, prev_x as int, y) == Some(TileType::Floor));
                        }
                        assert forall|x: int|
                            (if prev_x < new_x {
                                prev_x as int
                            } else {
                                new_x as int
                            }) <= x <= (if prev_x < new_x {
                                new_x as int
                            } else {
                                prev_x as int
                            }) implies #[trigger] floor_at(
                            self.map.tiles@,
                            wi,
                            x,
                            new_y as int,
                        ) by {
                            assert(tile_at(self.map, x, new_y as int) == Some(TileType::Floor));
                        }
                        assert(floor_at(self.map.tiles@, wi, prev_x as int, prev_y as int));
                        assert(reachable_n(
                            self.map.tiles@,
                            wi,
                            hi,
                            prev_x as int,
                            prev_y as int,
                            prev_x as int,
                            prev_y as int,
                            0,
                        ));
                        lemma_reach_along_column(
                            self.map.tiles@,
                            wi,
                            hi,
                            prev_x as int,
                            prev_y as int,
                            prev_x as int,
                            prev_y as int,
                            new_y as int,
                            0,
                        );
                        lemma_reach_along_row(
                            self.map.tiles@,
                            wi,
                            hi,
                            prev_x as int,
                            prev_y as int,
                            new_y as int,
                            prev_x as int,
                            new_x as int,
                            crate::common::abs_diff(prev_y as int, new_y as int) as nat,
                        );
                        lemma_reachable_mono(
                            self.map.tiles@,
                            wi,
                            hi,
                            prev_x as int,
                            prev_y as int,
                            new_x as int,
                            new_y as int,
                            (crate::common::abs_diff(prev_y as int, new_y as int)
                                + crate::common::abs_diff(prev_x as int, new_x as int)) as nat,
                            (wi + hi) as nat,
                        );
                        assert forall|a: int, b: int|
                            in_grid(wi, hi, a, b) && #[trigger] floor_at(
                                pre.tiles@,
                                wi,
                                a,
                                b,
                            ) implies floor_at(self.map.tiles@, wi, a, b) by {
                            lemma_coords_to_index(wi, hi, a, b);
                            assert(tile_at(self.map, a, b) == Some(TileType::Floor) || tile_at(
                                self.map,
                                a,
                                b,
                            ) == tile_at(mid, a, b));
                            assert(tile_at(mid, a, b) == Some(TileType::Floor) || tile_at(
                                mid,
                                a,
                                b,
                            ) == tile_at(pre, a, b));
                        }
                        assert forall|k: int| 0 <= k < i + 1 implies reachable_n(
                            self.map.tiles@,
                            wi,
                            hi,
                            room_center_x(self.rooms@[n_rooms - 1]),
                            room_center_y(self.rooms@[n_rooms - 1]),
                            room_center_x(#[trigger] self.rooms@[k]),
                            room_center_y(self.rooms@[k]),
                            (wi + hi) as nat,
                        ) by {
                            if k < i {
                                lemma_reachable_widen(
                                    pre.tiles@,
                                    self.map.tiles@,
                                    wi,
                                    hi,
                                    room_center_x(lr),
                                    room_center_y(lr),
                                    room_center_x(self.rooms@[k]),
                                    room_center_y(self.rooms@[k]),
                                    (wi + hi) as nat,
                                );
                            }
                        }
                    }
                }
            }
            self.take_snapshot();
            proof {
                assert forall|k: int| 0 <= k < self.rooms@.len() implies room_stamped(
                    self.map,
                    #[trigger] self.rooms@[k],
                ) by {
                    assert(room_stamped(pre, self.rooms@[k]));
                    assert forall|xx: int, yy: int|
                        self.map.spec_in_bounds(xx, yy) && room_interior(
                            self.rooms@[k],
                            xx,
                            yy,
                        ) implies #[trigger] tile_at(self.map, xx, yy) == Some(
                        TileType::Floor,
                    ) by {
                        lemma_coords_to_index(wi, hi, xx, yy);
                        assert(tile_at(pre, xx, yy) == Some(TileType::Floor));
                        assert(self.map.tiles@[yy * wi + xx] == pre.tiles@[yy * wi + xx]
                            || self.map.tiles@[yy * wi + xx] == Some(TileType::Floor));
                    }
                }
            }
            i = i + 1;
        }
    }

    /// Sets every cell of row `y` between `x1` and `x2`, bounds included,
    /// to Floor — except the map's first cell, which the flat-index guard
    /// skips.
    fn apply_horizontal_tunnel(&mut self, x1: i32, x2: i32, y: i32)
        requires
            old(self).map.wf(),
            0 <= y < old(self).map.height,
            0 <= x1 < old(self).map.width,
            0 <= x2 < old(self).map.width,
        ensures
            final(self).map.wf(),
            final(self).map.width == old(self).map.width,
            final(self).map.height == old(self).map.height,
            final(self).rooms == old(self).rooms,
            final(self).snapshots == old(self).snapshots,
            forall|i: int|
                0 <= i < final(self).map.tiles@.len() ==> final(self).map.tiles@[i] == old(
                    self,
                ).map.tiles@[i] || final(self).map.tiles@[i] == Some(TileType::Floor),
            old(self).map.fully_assigned() ==> final(self).map.fully_assigned(),
            forall|xx: int, yy: int|
                old(self).map.spec_in_bounds(xx, yy) ==> #[trigger] tile_at(
                    final(self).map,
                    xx,
                    yy,
                ) == (if yy == y as int && (if x1 < x2 {
                    x1 as int
                } else {
                    x2 as int
                }) <= xx && xx <= (if x1 < x2 {
                    x2 as int
                } else {
                    x1 as int
                }) && !(xx == 0 && yy == 0) {
                    Some(TileType::Floor)
                } else {
                    tile_at(old(self).map, xx, yy)
                }),
    {
        let lo = if x1 < x2 {
            x1
        } else {
            x2
        };
        let hi = if x1 < x2 {
            x2
        } else {
            x1
        };
        let w = self.map.width;
        let h = self.map.height;
        let ghost wi = w as int;
        let ghost hi2 = h as int;
        let ghost g0 = self.map;
        let mut x = lo;
        while x <= hi
            invariant
                self.map.wf(),
                self.map.width == w,
                self.map.height == h,
                wi == w as int,
                hi2 == h as int,
                lo <= x,
                x <= hi + 1,
                0 <= lo,
                hi < w,
                0 <= y < h,
                g0.wf(),
                g0.width == w,
                g0.height == h,
                forall|i: int|
                    0 <= i < self.map.tiles@.len() ==> self.map.tiles@[i] == g0.tiles@[i]
                        || self.map.tiles@[i] == Some(TileType::Floor),
                g0.fully_assigned() ==> self.map.fully_assigned(),
                self.rooms == old(self).rooms,
                self.snapshots == old(self).snapshots,
                self.map.tiles@ == old(self).map.tiles@ || g0 == old(self).map,
                g0 == old(self).map,
                forall|xx: int, yy: int|
                    g0.spec_in_bounds(xx, yy) ==> #[trigger] tile_at(self.map, xx, yy) == (
                    if yy == y as int && lo as int <= xx && xx < x as int && !(xx == 0 && yy == 0) {
                        Some(TileType::Floor)
                    } else {
                        tile_at(g0, xx, yy)
                    }),
            decreases hi + 1 - x,
        {
            let ghost pre = self.map;
            let idx = self.map.xy_idx(x, y);
            if idx > 0 && idx < ((w * h) as usize) {
                self.map.tiles[idx] = Some(TileType::Floor);
            }
            proof {
                lemma_coords_to_index(wi, hi2, x as int, y as int);
                assert forall|xx: int, yy: int|
                    g0.spec_in_bounds(xx, yy) implies #[trigger] tile_at(self.map, xx, yy) == (
                    if yy == y as int && lo as int <= xx && xx < x as int + 1 && !(xx == 0 && yy
                        == 0) {
                        Some(TileType::Floor)
                    } else {
                        tile_at(g0, xx, yy)
                    }) by {
                    lemma_coords_to_index(wi, hi2, xx, yy);
                    assert(tile_at(pre, xx, yy) == (if yy == y as int && lo as int <= xx && xx
                        < x as int && !(xx == 0 && yy == 0) {
                        Some(TileType::Floor)
                    } else {
                        tile_at(g0, xx, yy)
                    }));
                    if !(xx == x as int && yy == y as int) {
                        assert(yy * wi + xx != y as int * wi + x as int);
                        assert(tile_at(self.map, xx, yy) == tile_at(pre, xx, yy));
                    }
                }
            }
            x = x + 1;
        }
    }

    /// Sets every cell of column `x` between `y1` and `y2`, bounds
    /// included, to Floor — except the map's first cell, which the
    /// flat-index guard skips.
    fn apply_vertical_tunnel(&mut self, y1: i32, y2: i32, x: i32)
        requires
            old(self).map.wf(),
            0 <= x < old(self).map.width,
            0 <= y1 < old(self).map.height,
            0 <= y2 < old(self).map.height,
        ensures
            final(self).map.wf(),
            final(self).map.width == old(self).map.width,
            final(self).map.height == old(self).map.height,
            final(self).rooms == old(self).rooms,
            final(self).snapshots == old(self).snapshots,
            forall|i: int|
                0 <= i < final(self).map.tiles@.len() ==> final(self).map.tiles@[i] == old(
                    self,
                ).map.tiles@[i] || final(self).map.tiles@[i] == Some(TileType::Floor),
            old(self).map.fully_assigned() ==> final(self).map.fully_assigned(),
            forall|xx: int, yy: int|
                old(self).map.spec_in_bounds(xx, yy) ==> #[trigger] tile_at(
                    final(self).map,
                    xx,
                    yy,
                ) == (if xx == x as int && (if y1 < y2 {
                    y1 as int
                } else {
                    y2 as int
                }) <= yy && yy <= (if y1 < y2 {
                    y2 as int
                } else {
                    y1 as int
                }) && !(xx == 0 && yy == 0) {
                    Some(TileType::Floor)
                } else {
                    tile_at(old(self).map, xx, yy)
                }),
    {
        let lo = if y1 < y2 {
            y1
        } else {
            y2
        };
        let hi = if y1 < y2 {
            y2
        } else {
            y1
        };
        let w = self.map.width;
        let h = self.map.height;
        let ghost wi = w as int;
        let ghost hi2 = h as int;
        let ghost g0 = self.map;
        let mut y = lo;
        while y <= hi
            invariant
                self.map.wf(),
                self.map.width == w,
                self.map.height == h,
                wi == w as int,
                hi2 == h as int,
                lo <= y,
                y <= hi + 1,
                0 <= lo,
                hi < h,
                0 <= x < w,
                g0.wf(),
                g0.width == w,
                g0.height == h,
                forall|i: int|
                    0 <= i < self.map.tiles@.len() ==> self.map.tiles@[i] == g0.tiles@[i]
                        || self.map.tiles@[i] == Some(TileType::Floor),
                g0.fully_assigned() ==> self.map.fully_assigned(),
                self.rooms == old(self).rooms,
                self.snapshots == old(self).snapshots,
                g0 == old(self).map,
                forall|xx: int, yy: int|
                    g0.spec_in_bounds(xx, yy) ==> #[trigger] tile_at(self.map, xx, yy) == (
                    if xx == x as int && lo as int <= yy && yy < y as int && !(xx == 0 && yy == 0) {
                        Some(TileType::Floor)
                    } else {
                        tile_at(g0, xx, yy)
                    }),
            decreases hi + 1 - y,
        {
            let ghost pre = self.map;
            let idx = self.map.xy_idx(x, y);
            if idx > 0 && idx < ((w * h) as usize) {
                self.map.tiles[idx] = Some(TileType::Floor);
            }
            proof {
                lemma_coords_to_index(wi, hi2, x as int, y as int);
                assert forall|xx: int, yy: int|
                    g0.spec_in_bounds(xx, yy) implies #[trigger] tile_at(self.map, xx, yy) == (
                    if xx == x as int && lo as int <= yy && yy < y as int + 1 && !(xx == 0 && yy
                        == 0) {
                        Some(TileType::Floor)
                    } else {
                        tile_at(g0, xx, yy)
                    }) by {
                    lemma_coords_to_index(wi, hi2, xx, yy);
                    assert(tile_at(pre, xx, yy) == (if xx == x as int && lo as int <= yy && yy
                        < y as int && !(xx == 0 && yy == 0) {
                        Some(TileType::Floor)
                    } else {
                        tile_at(g0, xx, yy)
                    }));
                    if !(xx == x as int && yy == y as int) {
                        assert(yy * wi + xx != y as int * wi + x as int);
                        assert(tile_at(self.map, xx, yy) == tile_at(pre, xx, yy));
                    }
                }
            }
            y = y + 1;
        }
    }
}

} // verus!
