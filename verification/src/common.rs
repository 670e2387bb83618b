//! Shared stamping and carving routines used by the room-based algorithms,
//! and the corridor-path model they are specified against.

use vstd::prelude::*;

use crate::grid::Grid;
use crate::grid::TileType;
use crate::grid::lemma_coords_to_index;
use crate::rect::Rect;
use crate::rect::spec_intersect;

verus! {

/// The tile of `g` at coordinates `(x, y)`.
pub open spec fn tile_at(g: Grid, x: int, y: int) -> Option<TileType> {
    g.tiles@[y * g.width + x]
}

/// `(x, y)` lies strictly inside `r`: the one-cell border at `x1`/`y1` is
/// excluded, the `x2`/`y2` edge included, as room stamping carves it.
pub open spec fn room_interior(r: Rect, x: int, y: int) -> bool {
    r.x1 + 1 <= x <= r.x2 && r.y1 + 1 <= y <= r.y2
}

/// No two rectangles of `s` at distinct positions intersect
/// (bounds inclusive).
pub open spec fn pairwise_non_intersecting(s: Seq<Rect>) -> bool {
    forall|i: int, j: int|
        0 <= i < s.len() && 0 <= j < s.len() && i != j ==> !spec_intersect(s[i], s[j])
}

/// Sets every cell strictly inside the rectangle's interior to Floor and
/// leaves every other cell unchanged.
pub fn apply_room_to_map(map: &mut Grid, room: &Rect)
    requires
        old(map).wf(),
        -1 <= room.x1 <= room.x2 < old(map).width,
        -1 <= room.y1 <= room.y2 < old(map).height,
    ensures
        final(map).width == old(map).width,
        final(map).height == old(map).height,
        final(map).tiles@.len() == old(map).tiles@.len(),
        forall|x: int, y: int|
            old(map).spec_in_bounds(x, y) ==> #[trigger] tile_at(*final(map), x, y) == (
            if room_interior(*room, x, y) {
                Some(TileType::Floor)
            } else {
                tile_at(*old(map), x, y)
            }),
        forall|i: int|
            0 <= i < final(map).tiles@.len() ==> final(map).tiles@[i] == old(map).tiles@[i]
                || final(map).tiles@[i] == Some(TileType::Floor),
{
    let ghost g0 = *old(map);
    let mut y = room.y1 + 1;
    while y <= room.y2
        invariant
            map.wf(),
            map.width == g0.width,
            map.height == g0.height,
            map.tiles@.len() == g0.tiles@.len(),
            -1 <= room.x1 <= room.x2 < map.width,
            -1 <= room.y1,
            room.y1 + 1 <= y,
            y <= room.y2 + 1,
            room.y2 < map.height,
            forall|xx: int, yy: int|
                g0.spec_in_bounds(xx, yy) ==> #[trigger] tile_at(*map, xx, yy) == (
                if room_interior(*room, xx, yy) && yy < y {
                    Some(TileType::Floor)
                } else {
                    tile_at(g0, xx, yy)
                }),
            forall|i: int|
                0 <= i < map.tiles@.len() ==> map.tiles@[i] == g0.tiles@[i] || map.tiles@[i]
                    == Some(TileType::Floor),
        decreases room.y2 + 1 - y,
    {
        let mut x = room.x1 + 1;
        while x <= room.x2
            invariant
                map.wf(),
                map.width == g0.width,
                map.height == g0.height,
                map.tiles@.len() == g0.tiles@.len(),
                -1 <= room.x1 <= room.x2 < map.width,
                -1 <= room.y1,
                room.x1 + 1 <= x,
                x <= room.x2 + 1,
                room.y1 + 1 <= y <= room.y2,
                room.y2 < map.height,
                forall|xx: int, yy: int|
                    g0.spec_in_bounds(xx, yy) ==> #[trigger] tile_at(*map, xx, yy) == (
                    if room_interior(*room, xx, yy) && (yy < y || (yy == y && xx < x)) {
                        Some(TileType::Floor)
                    } else {
                        tile_at(g0, xx, yy)
                    }),
                forall|i: int|
                    0 <= i < map.tiles@.len() ==> map.tiles@[i] == g0.tiles@[i] || map.tiles@[i]
                        == Some(TileType::Floor),
            decreases room.x2 + 1 - x,
        {
            let ghost pre = *map;
            let idx = map.xy_idx(x, y);
            map.tiles[idx] = Some(TileType::Floor);
            proof {
                assert(map.tiles@ == pre.tiles@.update(idx as int, Some(TileType::Floor)));
                assert forall|xx: int, yy: int| g0.spec_in_bounds(xx, yy) implies #[trigger] tile_at(
                    *map,
                    xx,
                    yy,
                ) == (if room_interior(*room, xx, yy) && (yy < y || (yy == y && xx < x + 1)) {
                    Some(TileType::Floor)
                } else {
                    tile_at(g0, xx, yy)
                }) by {
                    lemma_coords_to_index(g0.width as int, g0.height as int, xx, yy);
                    lemma_coords_to_index(g0.width as int, g0.height as int, x as int, y as int);
                    assert(tile_at(pre, xx, yy) == (if room_interior(*room, xx, yy) && (yy < y
                        || (yy == y && xx < x)) {
                        Some(TileType::Floor)
                    } else {
                        tile_at(g0, xx, yy)
                    }));
                    if !(xx == x as int && yy == y as int) {
                        assert(yy * g0.width + xx != y as int * g0.width + x as int);
                        assert(tile_at(*map, xx, yy) == tile_at(pre, xx, yy));
                    }
                }
            }
            x = x + 1;
        }
        y = y + 1;
    }
}

/// The direction of one corridor step from `(x, y)` toward `(tx, ty)`:
/// x is adjusted first, then y.
pub open spec fn corridor_step(x: int, y: int, tx: int, ty: int) -> (int, int) {
    if x < tx {
        (x + 1, y)
    } else if x > tx {
        (x - 1, y)
    } else if y < ty {
        (x, y + 1)
    } else {
        (x, y - 1)
    }
}

pub open spec fn abs_diff(a: int, b: int) -> int {
    if a < b {
        b - a
    } else {
        a - b
    }
}

/// The cells a corridor walk from `(x, y)` to `(tx, ty)` sets to Floor:
/// every visited cell except the starting one.
pub open spec fn carved_cells(x: int, y: int, tx: int, ty: int) -> Set<(int, int)>
    decreases abs_diff(x, tx) + abs_diff(y, ty),
{
    if x == tx && y == ty {
        Set::empty()
    } else {
        let (nx, ny) = corridor_step(x, y, tx, ty);
        carved_cells(nx, ny, tx, ty).insert((nx, ny))
    }
}

/// Every visited cell of the walk, the starting cell included.
pub open spec fn corridor_cells(x: int, y: int, tx: int, ty: int) -> Set<(int, int)> {
    carved_cells(x, y, tx, ty).insert((x, y))
}

/// Carved cells stay inside the bounding box of the endpoints, and the walk
/// never returns to its starting cell.
pub proof fn lemma_carved_in_box(x: int, y: int, tx: int, ty: int)
    ensures
        forall|c: (int, int)|
            carved_cells(x, y, tx, ty).contains(c) ==> {
                &&& if x < tx { x < c.0 <= tx } else { tx <= c.0 <= x }
                &&& if y < ty { y <= c.1 <= ty } else { ty <= c.1 <= y }
            },
        !carved_cells(x, y, tx, ty).contains((x, y)),
    decreases abs_diff(x, tx) + abs_diff(y, ty),
{
    if x == tx && y == ty {
    } else {
        let (nx, ny) = corridor_step(x, y, tx, ty);
        lemma_carved_in_box(nx, ny, tx, ty);
    }
}

/// Walks a Manhattan L-path one step at a time from `(x1, y1)` to
/// `(x2, y2)` — x first, then y — setting each visited cell after the start
/// to Floor.
pub fn carve_corridor(map: &mut Grid, x1: i32, y1: i32, x2: i32, y2: i32)
    requires
        old(map).wf(),
        old(map).spec_in_bounds(x1 as int, y1 as int),
        old(map).spec_in_bounds(x2 as int, y2 as int),
    ensures
        final(map).width == old(map).width,
        final(map).height == old(map).height,
        final(map).tiles@.len() == old(map).tiles@.len(),
        forall|x: int, y: int|
            old(map).spec_in_bounds(x, y) ==> #[trigger] tile_at(*final(map), x, y) == (
            if carved_cells(x1 as int, y1 as int, x2 as int, y2 as int).contains((x, y)) {
                Some(TileType::Floor)
            } else {
                tile_at(*old(map), x, y)
            }),
        forall|i: int|
            0 <= i < final(map).tiles@.len() ==> final(map).tiles@[i] == old(map).tiles@[i]
                || final(map).tiles@[i] == Some(TileType::Floor),
{
    let ghost g0 = *old(map);
    let ghost full = carved_cells(x1 as int, y1 as int, x2 as int, y2 as int);
    let mut x = x1;
    let mut y = y1;
    proof {
        lemma_carved_in_box(x1 as int, y1 as int, x2 as int, y2 as int);
    }
    while x != x2 || y != y2
        invariant
            map.wf(),
            map.width == g0.width,
            map.height == g0.height,
            map.tiles@.len() == g0.tiles@.len(),
            g0.spec_in_bounds(x1 as int, y1 as int),
            g0.spec_in_bounds(x2 as int, y2 as int),
            g0.spec_in_bounds(x as int, y as int),
            full == carved_cells(x1 as int, y1 as int, x2 as int, y2 as int),
            carved_cells(x as int, y as int, x2 as int, y2 as int).subset_of(full),
            forall|xx: int, yy: int|
                g0.spec_in_bounds(xx, yy) ==> #[trigger] tile_at(*map, xx, yy) == (
                if full.contains((xx, yy)) && !carved_cells(
                    x as int,
                    y as int,
                    x2 as int,
                    y2 as int,
                ).contains((xx, yy)) {
                    Some(TileType::Floor)
                } else {
                    tile_at(g0, xx, yy)
                }),
            forall|i: int|
                0 <= i < map.tiles@.len() ==> map.tiles@[i] == g0.tiles@[i] || map.tiles@[i]
                    == Some(TileType::Floor),
        decreases abs_diff(x as int, x2 as int) + abs_diff(y as int, y2 as int),
    {
        let ghost cx = x as int;
        let ghost cy = y as int;
        if x < x2 {
            x = x + 1;
        } else if x > x2 {
            x = x - 1;
        } else if y < y2 {
            y = y + 1;
        } else {
            y = y - 1;
        }
        proof {
            assert((x as int, y as int) == corridor_step(cx, cy, x2 as int, y2 as int));
            assert(carved_cells(cx, cy, x2 as int, y2 as int) == carved_cells(
                x as int,
                y as int,
                x2 as int,
                y2 as int,
            ).insert((x as int, y as int)));
            lemma_carved_in_box(x as int, y as int, x2 as int, y2 as int);
            lemma_carved_in_box(cx, cy, x2 as int, y2 as int);
            assert(carved_cells(cx, cy, x2 as int, y2 as int).contains((x as int, y as int)));
            assert(full.contains((x as int, y as int)));
            assert forall|c: (int, int)|
                carved_cells(x as int, y as int, x2 as int, y2 as int).contains(
                    c,
                ) implies full.contains(c) by {
                assert(carved_cells(cx, cy, x2 as int, y2 as int).contains(c));
            }
        }
        let ghost pre = *map;
        let idx = map.xy_idx(x, y);
        map.tiles[idx] = Some(TileType::Floor);
        proof {
            assert(map.tiles@ == pre.tiles@.update(idx as int, Some(TileType::Floor)));
            assert forall|xx: int, yy: int| g0.spec_in_bounds(xx, yy) implies #[trigger] tile_at(
                *map,
                xx,
                yy,
            ) == (if full.contains((xx, yy)) && !carved_cells(
                x as int,
                y as int,
                x2 as int,
                y2 as int,
            ).contains((xx, yy)) {
                Some(TileType::Floor)
            } else {
                tile_at(g0, xx, yy)
            }) by {
                lemma_coords_to_index(g0.width as int, g0.height as int, xx, yy);
                lemma_coords_to_index(g0.width as int, g0.height as int, x as int, y as int);
                assert(tile_at(pre, xx, yy) == (if full.contains((xx, yy)) && !carved_cells(
                    cx,
                    cy,
                    x2 as int,
                    y2 as int,
                ).contains((xx, yy)) {
                    Some(TileType::Floor)
                } else {
                    tile_at(g0, xx, yy)
                }));
                if xx == x as int && yy == y as int {
                    assert(!carved_cells(x as int, y as int, x2 as int, y2 as int).contains(
                        (xx, yy),
                    ));
                } else {
                    assert(yy * g0.width + xx != y as int * g0.width + x as int);
                    assert(tile_at(*map, xx, yy) == tile_at(pre, xx, yy));
                    assert(carved_cells(cx, cy, x2 as int, y2 as int).contains((xx, yy))
                        == carved_cells(x as int, y as int, x2 as int, y2 as int).contains(
                        (xx, yy),
                    ));
                }
            }
        }
    }
}

/// On a straight segment — endpoints sharing a row or a column — the visited
/// cells are exactly the cells between the endpoints, both included.
pub proof fn lemma_straight_corridor_cells(x1: int, y1: int, x2: int, y2: int)
    requires
        x1 == x2 || y1 == y2,
    ensures
        corridor_cells(x1, y1, x2, y2) =~= Set::new(
            |c: (int, int)|
                {
                    &&& if x1 <= x2 { x1 <= c.0 <= x2 } else { x2 <= c.0 <= x1 }
                    &&& if y1 <= y2 { y1 <= c.1 <= y2 } else { y2 <= c.1 <= y1 }
                },
        ),
    decreases abs_diff(x1, x2) + abs_diff(y1, y2),
{
    lemma_carved_in_box(x1, y1, x2, y2);
    if x1 == x2 && y1 == y2 {
    } else {
        let (nx, ny) = corridor_step(x1, y1, x2, y2);
        lemma_straight_corridor_cells(nx, ny, x2, y2);
        lemma_carved_in_box(nx, ny, x2, y2);
    }
}

/// Corridor carving is symmetric on straight segments: walking from one
/// endpoint to the other visits the same set of cells in either direction.
pub proof fn lemma_corridor_symmetric(x1: int, y1: int, x2: int, y2: int)
    requires
        x1 == x2 || y1 == y2,
    ensures
        corridor_cells(x1, y1, x2, y2) == corridor_cells(x2, y2, x1, y1),
{
    lemma_straight_corridor_cells(x1, y1, x2, y2);
    lemma_straight_corridor_cells(x2, y2, x1, y1);
    assert(corridor_cells(x1, y1, x2, y2) =~= corridor_cells(x2, y2, x1, y1));
}

/// The rectangles of `s` are ordered by left edge.
pub open spec fn sorted_by_left(s: Seq<Rect>) -> bool {
    forall|i: int, j: int| 0 <= i < j < s.len() ==> s[i].x1 <= s[j].x1
}

/// Sorts rooms by their left edge. Every room of the result is a room of
/// the input, and pairwise non-intersection is preserved.
pub fn sort_rooms_by_left(rooms: &mut Vec<Rect>)
    ensures
        final(rooms)@.len() == old(rooms)@.len(),
        sorted_by_left(final(rooms)@),
        forall|k: int|
            0 <= k < final(rooms)@.len() ==> old(rooms)@.contains(#[trigger] final(rooms)@[k]),
        pairwise_non_intersecting(old(rooms)@) ==> pairwise_non_intersecting(final(rooms)@),
{
    let ghost orig = rooms@;
    let n = rooms.len();
    let mut i: usize = 1;
    while i < n
        invariant
            n == rooms@.len(),
            1 <= i,
            rooms@.len() == orig.len(),
            forall|k: int| 0 <= k < rooms@.len() ==> orig.contains(#[trigger] rooms@[k]),
            pairwise_non_intersecting(orig) ==> pairwise_non_intersecting(rooms@),
            forall|p: int, q: int| 0 <= p < q < i ==> rooms@[p].x1 <= rooms@[q].x1,
        decreases n - i,
    {
        let mut j: usize = i;
        while j > 0 && rooms[j - 1].x1 > rooms[j].x1
            invariant
                n == rooms@.len(),
                j <= i < n,
                rooms@.len() == orig.len(),
                forall|k: int| 0 <= k < rooms@.len() ==> orig.contains(#[trigger] rooms@[k]),
                pairwise_non_intersecting(orig) ==> pairwise_non_intersecting(rooms@),
                forall|p: int, q: int|
                    0 <= p < q <= i && q != j ==> rooms@[p].x1 <= rooms@[q].x1,
            decreases j,
        {
            let ghost before = rooms@;
            let a = rooms[j - 1];
            let b = rooms[j];
            rooms[j - 1] = b;
            rooms[j] = a;
            proof {
                assert(rooms@ =~= before.update(j - 1, before[j as int]).update(
                    j as int,
                    before[j - 1],
                ));
                if pairwise_non_intersecting(orig) {
                    assert forall|p: int, q: int|
                        0 <= p < rooms@.len() && 0 <= q < rooms@.len() && p
                            != q implies !spec_intersect(rooms@[p], rooms@[q]) by {
                        let p0: int = if p == j - 1 {
                            j as int
                        } else if p == j {
                            j - 1
                        } else {
                            p
                        };
                        let q0: int = if q == j - 1 {
                            j as int
                        } else if q == j {
                            j - 1
                        } else {
                            q
                        };
                        assert(rooms@[p] == before[p0] && rooms@[q] == before[q0] && p0 != q0);
                    }
                }
            }
            j = j - 1;
        }
        i = i + 1;
    }
}

/// Every cell strictly inside `r` holds Floor.
pub open spec fn room_stamped(g: Grid, r: Rect) -> bool {
    forall|x: int, y: int|
        g.spec_in_bounds(x, y) && room_interior(r, x, y) ==> #[trigger] tile_at(g, x, y) == Some(
            TileType::Floor,
        )
}

/// `a` holds the same map as `b`: same dimensions, same tiles.
pub open spec fn grid_matches(a: Grid, b: Grid) -> bool {
    a.width == b.width && a.height == b.height && a.tiles@ == b.tiles@
}

/// Every cell holds the given tile kind.
pub open spec fn all_tile(t: Seq<Option<TileType>>, k: TileType) -> bool {
    forall|i: int| 0 <= i < t.len() ==> t[i] == Some(k)
}

/// A well-formed, fully assigned grid of the given dimensions: what every
/// snapshot and every finished map must be.
pub open spec fn grid_complete(g: Grid, w: int, h: int) -> bool {
    &&& g.wf()
    &&& g.width == w
    &&& g.height == h
    &&& g.fully_assigned()
}

/// Every grid of the history is complete for the given dimensions.
pub open spec fn history_complete(s: Seq<Grid>, w: int, h: int) -> bool {
    forall|k: int| 0 <= k < s.len() ==> grid_complete(#[trigger] s[k], w, h)
}

/// `(x, y)` lies on the one-cell outer border of a `w` by `h` grid.
pub open spec fn on_border(w: int, h: int, x: int, y: int) -> bool {
    x == 0 || x == w - 1 || y == 0 || y == h - 1
}

/// The tiles after stamping the outer border Wall: border cells become
/// Wall, all other cells keep their tile.
pub open spec fn border_stamp(t: Seq<Option<TileType>>, w: int, h: int) -> Seq<
    Option<TileType>,
> {
    Seq::new(t.len(), |i: int| if on_border(w, h, i % w, i / w) {
        Some(TileType::Wall)
    } else {
        t[i]
    })
}

/// Border stamping is idempotent: stamping the border a second time
/// changes nothing.
pub proof fn lemma_border_stamp_idempotent(t: Seq<Option<TileType>>, w: int, h: int)
    ensures
        border_stamp(border_stamp(t, w, h), w, h) == border_stamp(t, w, h),
{
    assert(border_stamp(border_stamp(t, w, h), w, h) =~= border_stamp(t, w, h));
}

/// A grid whose every in-bounds coordinate holds a tile is fully assigned.
pub proof fn lemma_full_from_coords(g: Grid)
    requires
        g.wf(),
        1 <= g.width,
        forall|x: int, y: int| g.spec_in_bounds(x, y) ==> (#[trigger] tile_at(g, x, y)) is Some,
    ensures
        g.fully_assigned(),
{
    assert forall|i: int| 0 <= i < g.tiles@.len() implies g.tiles@[i] is Some by {
        crate::grid::lemma_flat_index_coords(g.width as int, g.height as int, i);
        assert(tile_at(g, i % g.width as int, i / g.width as int) == g.tiles@[i]);
    }
}

/// A grid whose every in-bounds coordinate holds the kind `k` holds it at
/// every index.
pub proof fn lemma_all_tile_from_coords(g: Grid, k: TileType)
    requires
        g.wf(),
        1 <= g.width,
        forall|x: int, y: int|
            g.spec_in_bounds(x, y) ==> #[trigger] tile_at(g, x, y) == Some(k),
    ensures
        all_tile(g.tiles@, k),
{
    assert forall|i: int| 0 <= i < g.tiles@.len() implies g.tiles@[i] == Some(k) by {
        crate::grid::lemma_flat_index_coords(g.width as int, g.height as int, i);
        assert(tile_at(g, i % g.width as int, i / g.width as int) == g.tiles@[i]);
    }
}

} // verus!
