//! Connectivity pruning: a capped single-source flood over Floor tiles.
//! Floor tiles that the flood does not reach are converted to Wall, so that
//! afterwards every Floor tile is reachable from the start tile.

use vstd::prelude::*;

use crate::grid::Grid;
use crate::grid::TileType;
use crate::grid::lemma_coords_to_index;
use crate::common::tile_at;

verus! {

/// Tiles farther than this many steps from the start are treated as
/// unreachable.
pub const MAX_FLOOD_DEPTH: u32 = 200;

/// The sentinel distance of a tile the flood has not reached.
pub const UNREACHED: u32 = 0xffff_ffff;

/// `(x, y)` lies on a `w` by `h` grid.
pub open spec fn in_grid(w: int, h: int, x: int, y: int) -> bool {
    0 <= x < w && 0 <= y < h
}

/// The tile sequence holds Floor at `(x, y)`.
pub open spec fn floor_at(t: Seq<Option<TileType>>, w: int, x: int, y: int) -> bool {
    t[y * w + x] == Some(TileType::Floor)
}

/// `(x, y)` can be reached from `(sx, sy)` in at most `n` 4-directional
/// steps, every visited tile (the start included) being Floor.
pub open spec fn reachable_n(
    t: Seq<Option<TileType>>,
    w: int,
    h: int,
    sx: int,
    sy: int,
    x: int,
    y: int,
    n: nat,
) -> bool
    decreases n,
{
    if n == 0 {
        x == sx && y == sy && in_grid(w, h, x, y) && floor_at(t, w, x, y)
    } else {
        reachable_n(t, w, h, sx, sy, x, y, (n - 1) as nat) || (in_grid(w, h, x, y) && floor_at(
            t,
            w,
            x,
            y,
        ) && (reachable_n(t, w, h, sx, sy, x - 1, y, (n - 1) as nat) || reachable_n(
            t,
            w,
            h,
            sx,
            sy,
            x + 1,
            y,
            (n - 1) as nat,
        ) || reachable_n(t, w, h, sx, sy, x, y - 1, (n - 1) as nat) || reachable_n(
            t,
            w,
            h,
            sx,
            sy,
            x,
            y + 1,
            (n - 1) as nat,
        )))
    }
}

/// Reachability within the flood cap.
pub open spec fn reachable(
    t: Seq<Option<TileType>>,
    w: int,
    h: int,
    sx: int,
    sy: int,
    x: int,
    y: int,
) -> bool {
    reachable_n(t, w, h, sx, sy, x, y, MAX_FLOOD_DEPTH as nat)
}

/// The recorded distance of `(x, y)` in the distance array.
pub open spec fn dval(d: Seq<u32>, w: int, x: int, y: int) -> int {
    d[y * w + x] as int
}

/// The flood has reached `(x, y)`.
pub open spec fn is_set(d: Seq<u32>, w: int, x: int, y: int) -> bool {
    d[y * w + x] != UNREACHED
}

/// Reachability is monotone in the step budget.
pub proof fn lemma_reachable_mono(
    t: Seq<Option<TileType>>,
    w: int,
    h: int,
    sx: int,
    sy: int,
    x: int,
    y: int,
    n: nat,
    m: nat,
)
    requires
        reachable_n(t, w, h, sx, sy, x, y, n),
        n <= m,
    ensures
        reachable_n(t, w, h, sx, sy, x, y, m),
    decreases m,
{
    if m > n {
        lemma_reachable_mono(t, w, h, sx, sy, x, y, n, (m - 1) as nat);
    }
}

/// A reachable tile and the start tile are both in-grid Floor tiles.
pub proof fn lemma_reachable_ends(
    t: Seq<Option<TileType>>,
    w: int,
    h: int,
    sx: int,
    sy: int,
    x: int,
    y: int,
    n: nat,
)
    requires
        reachable_n(t, w, h, sx, sy, x, y, n),
    ensures
        in_grid(w, h, x, y),
        floor_at(t, w, x, y),
        in_grid(w, h, sx, sy),
        floor_at(t, w, sx, sy),
    decreases n,
{
    if n == 0 {
    } else {
        let m = (n - 1) as nat;
        if reachable_n(t, w, h, sx, sy, x, y, m) {
            lemma_reachable_ends(t, w, h, sx, sy, x, y, m);
        } else if reachable_n(t, w, h, sx, sy, x - 1, y, m) {
            lemma_reachable_ends(t, w, h, sx, sy, x - 1, y, m);
        } else if reachable_n(t, w, h, sx, sy, x + 1, y, m) {
            lemma_reachable_ends(t, w, h, sx, sy, x + 1, y, m);
        } else if reachable_n(t, w, h, sx, sy, x, y - 1, m) {
            lemma_reachable_ends(t, w, h, sx, sy, x, y - 1, m);
        } else {
            lemma_reachable_ends(t, w, h, sx, sy, x, y + 1, m);
        }
    }
}

/// Some 4-neighbour of `(x, y)` is recorded exactly one step closer.
pub open spec fn has_parent(d: Seq<u32>, w: int, h: int, x: int, y: int) -> bool {
    ||| (in_grid(w, h, x - 1, y) && is_set(d, w, x - 1, y) && dval(d, w, x - 1, y) + 1 == dval(
        d,
        w,
        x,
        y,
    ))
    ||| (in_grid(w, h, x + 1, y) && is_set(d, w, x + 1, y) && dval(d, w, x + 1, y) + 1 == dval(
        d,
        w,
        x,
        y,
    ))
    ||| (in_grid(w, h, x, y - 1) && is_set(d, w, x, y - 1) && dval(d, w, x, y - 1) + 1 == dval(
        d,
        w,
        x,
        y,
    ))
    ||| (in_grid(w, h, x, y + 1) && is_set(d, w, x, y + 1) && dval(d, w, x, y + 1) + 1 == dval(
        d,
        w,
        x,
        y,
    ))
}

/// The distance-array facts the flood loop maintains, with every recorded
/// distance at most `bound`.
pub open spec fn flood_inv(
    t: Seq<Option<TileType>>,
    d: Seq<u32>,
    w: int,
    h: int,
    sx: int,
    sy: int,
    bound: int,
) -> bool {
    &&& d.len() == w * h
    &&& in_grid(w, h, sx, sy)
    &&& floor_at(t, w, sx, sy)
    &&& is_set(d, w, sx, sy)
    &&& dval(d, w, sx, sy) == 0
    &&& forall|x: int, y: int|
        in_grid(w, h, x, y) && #[trigger] is_set(d, w, x, y) ==> {
            &&& 0 <= dval(d, w, x, y) <= bound
            &&& dval(d, w, x, y) <= MAX_FLOOD_DEPTH
            &&& floor_at(t, w, x, y)
            &&& (dval(d, w, x, y) == 0 ==> x == sx && y == sy)
            &&& ((x != sx || y != sy) ==> has_parent(d, w, h, x, y))
        }
}

/// Every in-grid Floor 4-neighbour of `(x, y)` is recorded, one step
/// farther at most.
pub open spec fn nbrs_closed(
    t: Seq<Option<TileType>>,
    d: Seq<u32>,
    w: int,
    h: int,
    x: int,
    y: int,
) -> bool {
    &&& (in_grid(w, h, x - 1, y) && floor_at(t, w, x - 1, y) ==> is_set(d, w, x - 1, y) && dval(
        d,
        w,
        x - 1,
        y,
    ) <= dval(d, w, x, y) + 1)
    &&& (in_grid(w, h, x + 1, y) && floor_at(t, w, x + 1, y) ==> is_set(d, w, x + 1, y) && dval(
        d,
        w,
        x + 1,
        y,
    ) <= dval(d, w, x, y) + 1)
    &&& (in_grid(w, h, x, y - 1) && floor_at(t, w, x, y - 1) ==> is_set(d, w, x, y - 1) && dval(
        d,
        w,
        x,
        y - 1,
    ) <= dval(d, w, x, y) + 1)
    &&& (in_grid(w, h, x, y + 1) && floor_at(t, w, x, y + 1) ==> is_set(d, w, x, y + 1) && dval(
        d,
        w,
        x,
        y + 1,
    ) <= dval(d, w, x, y) + 1)
}

/// The closure fact: every tile recorded strictly below `level` has had all
/// its Floor neighbours recorded.
pub open spec fn flood_closed_below(
    t: Seq<Option<TileType>>,
    d: Seq<u32>,
    w: int,
    h: int,
    level: int,
) -> bool {
    forall|x: int, y: int|
        in_grid(w, h, x, y) && #[trigger] is_set(d, w, x, y) && dval(d, w, x, y) < level
            ==> nbrs_closed(t, d, w, h, x, y)
}

/// Completeness of the finished flood: whatever is reachable within the cap
/// has been recorded, no farther than its step count.
pub proof fn lemma_flood_complete(
    t: Seq<Option<TileType>>,
    d: Seq<u32>,
    w: int,
    h: int,
    sx: int,
    sy: int,
    x: int,
    y: int,
    n: nat,
)
    requires
        flood_inv(t, d, w, h, sx, sy, MAX_FLOOD_DEPTH as int),
        flood_closed_below(t, d, w, h, MAX_FLOOD_DEPTH as int),
        n <= MAX_FLOOD_DEPTH,
        reachable_n(t, w, h, sx, sy, x, y, n),
    ensures
        is_set(d, w, x, y),
        dval(d, w, x, y) <= n,
    decreases n,
{
    if n == 0 {
    } else {
        let m = (n - 1) as nat;
        if reachable_n(t, w, h, sx, sy, x, y, m) {
            lemma_flood_complete(t, d, w, h, sx, sy, x, y, m);
        } else {
            lemma_reachable_ends(t, w, h, sx, sy, x, y, n);
            if reachable_n(t, w, h, sx, sy, x - 1, y, m) {
                lemma_reachable_ends(t, w, h, sx, sy, x - 1, y, m);
                lemma_flood_complete(t, d, w, h, sx, sy, x - 1, y, m);
                assert(nbrs_closed(t, d, w, h, x - 1, y));
            } else if reachable_n(t, w, h, sx, sy, x + 1, y, m) {
                lemma_reachable_ends(t, w, h, sx, sy, x + 1, y, m);
                lemma_flood_complete(t, d, w, h, sx, sy, x + 1, y, m);
                assert(nbrs_closed(t, d, w, h, x + 1, y));
            } else if reachable_n(t, w, h, sx, sy, x, y - 1, m) {
                lemma_reachable_ends(t, w, h, sx, sy, x, y - 1, m);
                lemma_flood_complete(t, d, w, h, sx, sy, x, y - 1, m);
                assert(nbrs_closed(t, d, w, h, x, y - 1));
            } else {
                lemma_reachable_ends(t, w, h, sx, sy, x, y + 1, m);
                lemma_flood_complete(t, d, w, h, sx, sy, x, y + 1, m);
                assert(nbrs_closed(t, d, w, h, x, y + 1));
            }
        }
    }
}

/// Soundness of the recorded parents over any tile sequence in which every
/// recorded tile is Floor: each recorded tile is reachable over `t2` within
/// its recorded distance.
pub proof fn lemma_flood_reaches_over(
    t: Seq<Option<TileType>>,
    t2: Seq<Option<TileType>>,
    d: Seq<u32>,
    w: int,
    h: int,
    sx: int,
    sy: int,
    x: int,
    y: int,
)
    requires
        flood_inv(t, d, w, h, sx, sy, MAX_FLOOD_DEPTH as int),
        forall|ax: int, ay: int|
            in_grid(w, h, ax, ay) && #[trigger] is_set(d, w, ax, ay) ==> floor_at(t2, w, ax, ay),
        in_grid(w, h, x, y),
        is_set(d, w, x, y),
    ensures
        reachable_n(t2, w, h, sx, sy, x, y, dval(d, w, x, y) as nat),
    decreases dval(d, w, x, y),
{
    let n = dval(d, w, x, y) as nat;
    if x == sx && y == sy {
        assert(floor_at(t2, w, sx, sy));
        assert(reachable_n(t2, w, h, sx, sy, sx, sy, 0));
        lemma_reachable_mono(t2, w, h, sx, sy, sx, sy, 0, n);
    } else {
        assert(has_parent(d, w, h, x, y));
        assert(floor_at(t2, w, x, y));
        if in_grid(w, h, x - 1, y) && is_set(d, w, x - 1, y) && dval(d, w, x - 1, y) + 1 == dval(
            d,
            w,
            x,
            y,
        ) {
            lemma_flood_reaches_over(t, t2, d, w, h, sx, sy, x - 1, y);
        } else if in_grid(w, h, x + 1, y) && is_set(d, w, x + 1, y) && dval(d, w, x + 1, y) + 1
            == dval(d, w, x, y) {
            lemma_flood_reaches_over(t, t2, d, w, h, sx, sy, x + 1, y);
        } else if in_grid(w, h, x, y - 1) && is_set(d, w, x, y - 1) && dval(d, w, x, y - 1) + 1
            == dval(d, w, x, y) {
            lemma_flood_reaches_over(t, t2, d, w, h, sx, sy, x, y - 1);
        } else {
            lemma_flood_reaches_over(t, t2, d, w, h, sx, sy, x, y + 1);
        }
        assert(reachable_n(t2, w, h, sx, sy, x, y, n));
    }
}

/// The recorded cells of `d0` keep their distances in `d1`.
pub open spec fn grows(d0: Seq<u32>, d1: Seq<u32>, w: int, h: int) -> bool {
    &&& d1.len() == d0.len()
    &&& forall|x: int, y: int|
        in_grid(w, h, x, y) && #[trigger] is_set(d0, w, x, y) ==> is_set(d1, w, x, y) && dval(
            d1,
            w,
            x,
            y,
        ) == dval(d0, w, x, y)
}

/// Closure at one cell survives a growth step: a Floor neighbour recorded
/// in `d0` keeps its distance, and one not recorded in `d0` contradicts the
/// closure there.
pub proof fn lemma_nbrs_closed_grows(
    t: Seq<Option<TileType>>,
    d0: Seq<u32>,
    d1: Seq<u32>,
    w: int,
    h: int,
    x: int,
    y: int,
)
    requires
        grows(d0, d1, w, h),
        in_grid(w, h, x, y),
        is_set(d0, w, x, y),
        nbrs_closed(t, d0, w, h, x, y),
    ensures
        nbrs_closed(t, d1, w, h, x, y),
{
}

/// Closure below a level survives a growth step whose new cells all lie at
/// or above that level.
pub proof fn lemma_closed_below_grows(
    t: Seq<Option<TileType>>,
    d0: Seq<u32>,
    d1: Seq<u32>,
    w: int,
    h: int,
    level: int,
)
    requires
        grows(d0, d1, w, h),
        flood_closed_below(t, d0, w, h, level),
        forall|x: int, y: int|
            in_grid(w, h, x, y) && #[trigger] is_set(d1, w, x, y) && !is_set(d0, w, x, y) ==> dval(
                d1,
                w,
                x,
                y,
            ) >= level,
    ensures
        flood_closed_below(t, d1, w, h, level),
{
    assert forall|x: int, y: int|
        in_grid(w, h, x, y) && #[trigger] is_set(d1, w, x, y) && dval(d1, w, x, y)
            < level implies nbrs_closed(t, d1, w, h, x, y) by {
        if is_set(d0, w, x, y) {
            assert(nbrs_closed(t, d0, w, h, x, y));
            lemma_nbrs_closed_grows(t, d0, d1, w, h, x, y);
        }
    }
}

/// One relaxation: record `(nx, ny)` at distance `lvl + 1` if it is an
/// unrecorded Floor tile; already-recorded tiles are already close enough.
fn relax_neighbor(
    map: &Grid,
    dist: &mut Vec<u32>,
    nx: i32,
    ny: i32,
    lvl: u32,
    Ghost(sx): Ghost<int>,
    Ghost(sy): Ghost<int>,
    Ghost(px): Ghost<int>,
    Ghost(py): Ghost<int>,
)
    requires
        map.wf(),
        1 <= map.width,
        1 <= map.height,
        old(dist)@.len() == map.tiles@.len(),
        map.spec_in_bounds(nx as int, ny as int),
        lvl < MAX_FLOOD_DEPTH,
        flood_inv(
            map.tiles@,
            old(dist)@,
            map.width as int,
            map.height as int,
            sx,
            sy,
            lvl as int + 1,
        ),
        in_grid(map.width as int, map.height as int, px, py),
        is_set(old(dist)@, map.width as int, px, py),
        dval(old(dist)@, map.width as int, px, py) == lvl as int,
        px == nx - 1 || px == nx + 1 || (px == nx && (py == ny - 1 || py == ny + 1)),
        px == nx || py == ny,
        (px != nx || py != ny),
    ensures
        final(dist)@.len() == old(dist)@.len(),
        flood_inv(
            map.tiles@,
            final(dist)@,
            map.width as int,
            map.height as int,
            sx,
            sy,
            lvl as int + 1,
        ),
        floor_at(map.tiles@, map.width as int, nx as int, ny as int) ==> is_set(
            final(dist)@,
            map.width as int,
            nx as int,
            ny as int,
        ) && dval(final(dist)@, map.width as int, nx as int, ny as int) <= lvl as int + 1,
        grows(old(dist)@, final(dist)@, map.width as int, map.height as int),
        forall|x: int, y: int|
            in_grid(map.width as int, map.height as int, x, y) && #[trigger] is_set(
                final(dist)@,
                map.width as int,
                x,
                y,
            ) && !is_set(old(dist)@, map.width as int, x, y) ==> x == nx as int && y == ny as int
                && dval(final(dist)@, map.width as int, x, y) == lvl as int + 1,
{
    let ghost w = map.width as int;
    let ghost h = map.height as int;
    let ghost d0 = dist@;
    let ghost t = map.tiles@;
    let nidx = map.xy_idx(nx, ny);
    let is_floor = match map.tiles[nidx] {
        Some(TileType::Floor) => true,
        _ => false,
    };
    proof {
        lemma_coords_to_index(w, h, nx as int, ny as int);
    }
    if is_floor && dist[nidx] == UNREACHED {
        dist[nidx] = lvl + 1;
        proof {
            let nxi = nx as int;
            let nyi = ny as int;
            assert(dist@ == d0.update(nidx as int, (lvl + 1) as u32));
            assert forall|x: int, y: int|
                in_grid(w, h, x, y) && (x != nxi || y != nyi) implies #[trigger] dist@[y * w + x]
                == d0[y * w + x] by {
                lemma_coords_to_index(w, h, x, y);
            }
            assert(is_set(dist@, w, nxi, nyi) && dval(dist@, w, nxi, nyi) == lvl + 1);
            assert(has_parent(dist@, w, h, nxi, nyi)) by {
                lemma_coords_to_index(w, h, px, py);
            }
            assert(grows(d0, dist@, w, h));
            assert forall|x: int, y: int|
                in_grid(w, h, x, y) && #[trigger] is_set(dist@, w, x, y) implies {
                &&& 0 <= dval(dist@, w, x, y) <= lvl as int + 1
                &&& dval(dist@, w, x, y) <= MAX_FLOOD_DEPTH
                &&& floor_at(t, w, x, y)
                &&& (dval(dist@, w, x, y) == 0 ==> x == sx && y == sy)
                &&& ((x != sx || y != sy) ==> has_parent(dist@, w, h, x, y))
            } by {
                if x == nxi && y == nyi {
                } else {
                    assert(is_set(d0, w, x, y) && dval(d0, w, x, y) == dval(dist@, w, x, y));
                    if x != sx || y != sy {
                        assert(has_parent(d0, w, h, x, y));
                    }
                }
            }
            assert(is_set(dist@, w, sx, sy) && dval(dist@, w, sx, sy) == 0);
        }
    } else {
        proof {
            let nxi = nx as int;
            let nyi = ny as int;
            if floor_at(t, w, nxi, nyi) {
                assert(is_set(d0, w, nxi, nyi));
            }
            assert(grows(d0, dist@, w, h));
        }
    }
}

/// Expands the flood by one cell of the current level: all four of its
/// Floor neighbours end up recorded.
#[verifier::rlimit(100)]
fn process_cell(
    map: &Grid,
    dist: &mut Vec<u32>,
    i: usize,
    lvl: u32,
    Ghost(sx): Ghost<int>,
    Ghost(sy): Ghost<int>,
)
    requires
        map.wf(),
        1 <= map.width,
        1 <= map.height,
        old(dist)@.len() == map.tiles@.len(),
        i < map.tiles@.len(),
        lvl < MAX_FLOOD_DEPTH,
        flood_inv(
            map.tiles@,
            old(dist)@,
            map.width as int,
            map.height as int,
            sx,
            sy,
            lvl as int + 1,
        ),
        old(dist)@[i as int] == lvl,
    ensures
        final(dist)@.len() == old(dist)@.len(),
        flood_inv(
            map.tiles@,
            final(dist)@,
            map.width as int,
            map.height as int,
            sx,
            sy,
            lvl as int + 1,
        ),
        grows(old(dist)@, final(dist)@, map.width as int, map.height as int),
        forall|x: int, y: int|
            in_grid(map.width as int, map.height as int, x, y) && #[trigger] is_set(
                final(dist)@,
                map.width as int,
                x,
                y,
            ) && !is_set(old(dist)@, map.width as int, x, y) ==> dval(
                final(dist)@,
                map.width as int,
                x,
                y,
            ) == lvl as int + 1,
        nbrs_closed(
            map.tiles@,
            final(dist)@,
            map.width as int,
            map.height as int,
            i as int % map.width as int,
            i as int / map.width as int,
        ),
{
    let ghost w = map.width as int;
    let ghost h = map.height as int;
    let ghost t = map.tiles@;
    let (x, y) = map.idx_xy(i);
    let ghost xi = x as int;
    let ghost yi = y as int;
    let ghost d0 = dist@;
    proof {
        assert(is_set(dist@, w, xi, yi) && dval(dist@, w, xi, yi) == lvl as int);
    }
    if x > 0 {
        relax_neighbor(map, dist, x - 1, y, lvl, Ghost(sx), Ghost(sy), Ghost(xi), Ghost(yi));
    }
    if x + 1 < map.width {
        relax_neighbor(map, dist, x + 1, y, lvl, Ghost(sx), Ghost(sy), Ghost(xi), Ghost(yi));
    }
    if y > 0 {
        relax_neighbor(map, dist, x, y - 1, lvl, Ghost(sx), Ghost(sy), Ghost(xi), Ghost(yi));
    }
    if y + 1 < map.height {
        relax_neighbor(map, dist, x, y + 1, lvl, Ghost(sx), Ghost(sy), Ghost(xi), Ghost(yi));
    }
    proof {
        assert(is_set(dist@, w, xi, yi) && dval(dist@, w, xi, yi) == lvl as int);
        assert(nbrs_closed(t, dist@, w, h, xi, yi));
    }
}


/// All recorded level-`lvl` cells with flat index below `upto` are closed.
pub open spec fn prefix_closed(
    t: Seq<Option<TileType>>,
    d: Seq<u32>,
    w: int,
    h: int,
    lvl: int,
    upto: int,
) -> bool {
    forall|x: int, y: int|
        in_grid(w, h, x, y) && #[trigger] is_set(d, w, x, y) && dval(d, w, x, y) == lvl && y * w
            + x < upto ==> nbrs_closed(t, d, w, h, x, y)
}

/// Processing the cell at flat index `i` extends the closed prefix by one.
pub proof fn lemma_prefix_extend(
    t: Seq<Option<TileType>>,
    d0: Seq<u32>,
    d1: Seq<u32>,
    w: int,
    h: int,
    lvl: int,
    i: int,
)
    requires
        1 <= w,
        1 <= h,
        0 <= i < w * h,
        grows(d0, d1, w, h),
        forall|x: int, y: int|
            in_grid(w, h, x, y) && #[trigger] is_set(d1, w, x, y) && !is_set(d0, w, x, y) ==> dval(
                d1,
                w,
                x,
                y,
            ) == lvl + 1,
        nbrs_closed(t, d1, w, h, i % w, i / w),
        prefix_closed(t, d0, w, h, lvl, i),
    ensures
        prefix_closed(t, d1, w, h, lvl, i + 1),
{
    crate::grid::lemma_flat_index_coords(w, h, i);
    assert forall|x: int, y: int|
        in_grid(w, h, x, y) && #[trigger] is_set(d1, w, x, y) && dval(d1, w, x, y) == lvl && y * w
            + x < i + 1 implies nbrs_closed(t, d1, w, h, x, y) by {
        lemma_coords_to_index(w, h, x, y);
        if x == i % w && y == i / w {
        } else {
            assert(is_set(d0, w, x, y) && dval(d0, w, x, y) == lvl) by {
                if !is_set(d0, w, x, y) {
                    assert(dval(d1, w, x, y) == lvl + 1);
                }
            }
            assert(nbrs_closed(t, d0, w, h, x, y));
            lemma_nbrs_closed_grows(t, d0, d1, w, h, x, y);
        }
    }
}

/// A cell not at the current level extends the closed prefix unchanged.
pub proof fn lemma_prefix_skip(
    t: Seq<Option<TileType>>,
    d: Seq<u32>,
    w: int,
    h: int,
    lvl: int,
    i: int,
)
    requires
        1 <= w,
        1 <= h,
        0 <= i < w * h,
        d.len() == w * h,
        d[i] != lvl || lvl < 0,
        prefix_closed(t, d, w, h, lvl, i),
    ensures
        prefix_closed(t, d, w, h, lvl, i + 1),
{
    crate::grid::lemma_flat_index_coords(w, h, i);
    assert forall|x: int, y: int|
        in_grid(w, h, x, y) && #[trigger] is_set(d, w, x, y) && dval(d, w, x, y) == lvl && y * w + x
            < i + 1 implies nbrs_closed(t, d, w, h, x, y) by {
        lemma_coords_to_index(w, h, x, y);
        assert(y * w + x != i);
    }
}

/// A fully closed level joins the closure below it.
pub proof fn lemma_pass_done(
    t: Seq<Option<TileType>>,
    d: Seq<u32>,
    w: int,
    h: int,
    lvl: int,
)
    requires
        1 <= w,
        1 <= h,
        d.len() == w * h,
        flood_closed_below(t, d, w, h, lvl),
        prefix_closed(t, d, w, h, lvl, w * h),
    ensures
        flood_closed_below(t, d, w, h, lvl + 1),
{
    assert forall|x: int, y: int|
        in_grid(w, h, x, y) && #[trigger] is_set(d, w, x, y) && dval(d, w, x, y) < lvl
            + 1 implies nbrs_closed(t, d, w, h, x, y) by {
        lemma_coords_to_index(w, h, x, y);
        if dval(d, w, x, y) == lvl {
            assert(y * w + x < w * h);
        }
    }
}

/// Computes the capped flood distances from the start tile, which must be
/// Floor. Cells the flood does not reach hold `UNREACHED`.
#[verifier::rlimit(100)]
fn flood_distances(map: &Grid, start_idx: usize) -> (dist: Vec<u32>)
    requires
        map.wf(),
        1 <= map.width,
        1 <= map.height,
        start_idx < map.tiles@.len(),
        map.tiles@[start_idx as int] == Some(TileType::Floor),
    ensures
        dist@.len() == map.tiles@.len(),
        flood_inv(
            map.tiles@,
            dist@,
            map.width as int,
            map.height as int,
            start_idx as int % map.width as int,
            start_idx as int / map.width as int,
            MAX_FLOOD_DEPTH as int,
        ),
        flood_closed_below(
            map.tiles@,
            dist@,
            map.width as int,
            map.height as int,
            MAX_FLOOD_DEPTH as int,
        ),
{
    let ghost w = map.width as int;
    let ghost h = map.height as int;
    let ghost t = map.tiles@;
    let len = map.tiles.len();
    let (sxe, sye) = map.idx_xy(start_idx);
    let ghost sx = sxe as int;
    let ghost sy = sye as int;

    let mut dist: Vec<u32> = Vec::new();
    let mut k: usize = 0;
    while k < len
        invariant
            k <= len,
            dist@.len() == k,
            forall|j: int| 0 <= j < k ==> dist@[j] == UNREACHED,
        decreases len - k,
    {
        dist.push(UNREACHED);
        k = k + 1;
    }
    dist[start_idx] = 0;
    proof {
        assert(dist@[start_idx as int] == 0);
        assert(forall|j: int| 0 <= j < len && j != start_idx ==> #[trigger] dist@[j] == UNREACHED);
        assert(is_set(dist@, w, sx, sy));
        assert forall|x: int, y: int|
            in_grid(w, h, x, y) && #[trigger] is_set(dist@, w, x, y) implies {
            &&& 0 <= dval(dist@, w, x, y) <= 0
            &&& dval(dist@, w, x, y) <= MAX_FLOOD_DEPTH
            &&& floor_at(t, w, x, y)
            &&& (dval(dist@, w, x, y) == 0 ==> x == sx && y == sy)
            &&& ((x != sx || y != sy) ==> has_parent(dist@, w, h, x, y))
        } by {
            lemma_coords_to_index(w, h, x, y);
            assert(y * w + x == start_idx as int);
            assert(x == sx && y == sy);
        }
        assert(flood_inv(t, dist@, w, h, sx, sy, 0));
    }

    let mut lvl: u32 = 0;
    while lvl < MAX_FLOOD_DEPTH
        invariant
            map.wf(),
            1 <= map.width,
            1 <= map.height,
            w == map.width as int,
            h == map.height as int,
            t == map.tiles@,
            len == map.tiles@.len(),
            lvl <= MAX_FLOOD_DEPTH,
            dist@.len() == len,
            flood_inv(t, dist@, w, h, sx, sy, lvl as int),
            flood_closed_below(t, dist@, w, h, lvl as int),
        decreases MAX_FLOOD_DEPTH - lvl,
    {
        let mut i: usize = 0;
        while i < len
            invariant
                map.wf(),
                1 <= map.width,
                1 <= map.height,
                w == map.width as int,
                h == map.height as int,
                t == map.tiles@,
                len == map.tiles@.len(),
                lvl < MAX_FLOOD_DEPTH,
                i <= len,
                dist@.len() == len,
                flood_inv(t, dist@, w, h, sx, sy, lvl as int + 1),
                flood_closed_below(t, dist@, w, h, lvl as int),
                prefix_closed(t, dist@, w, h, lvl as int, i as int),
            decreases len - i,
        {
            if dist[i] == lvl {
                let ghost d0 = dist@;
                process_cell(map, &mut dist, i, lvl, Ghost(sx), Ghost(sy));
                proof {
                    lemma_closed_below_grows(t, d0, dist@, w, h, lvl as int);
                    assert(prefix_closed(t, d0, w, h, lvl as int, i as int)) by {
                        assert forall|x: int, y: int|
                            in_grid(w, h, x, y) && #[trigger] is_set(d0, w, x, y) && dval(
                                d0,
                                w,
                                x,
                                y,
                            ) == lvl as int && y * w + x < i as int implies nbrs_closed(
                            t,
                            d0,
                            w,
                            h,
                            x,
                            y,
                        ) by {
                        }
                    }
                    lemma_prefix_extend(t, d0, dist@, w, h, lvl as int, i as int);
                }
            } else {
                proof {
                    lemma_prefix_skip(t, dist@, w, h, lvl as int, i as int);
                }
            }
            i = i + 1;
        }
        proof {
            lemma_pass_done(t, dist@, w, h, lvl as int);
        }
        lvl = lvl + 1;
    }
    dist
}

/// Searches the map from the start tile, converts every Floor tile the
/// capped flood cannot reach to Wall, and returns the most distant
/// reachable tile (an exit candidate). If the start tile is not Floor the
/// reachable set is empty and every Floor tile becomes Wall.
#[verifier::rlimit(100)]
pub fn remove_unreachable_areas_returning_most_distant(
    map: &mut Grid,
    start_idx: usize,
) -> (exit_idx: usize)
    requires
        old(map).wf(),
        1 <= old(map).width,
        1 <= old(map).height,
        start_idx < old(map).tiles@.len(),
    ensures
        final(map).wf(),
        final(map).width == old(map).width,
        final(map).height == old(map).height,
        final(map).tiles@.len() == old(map).tiles@.len(),
        exit_idx < final(map).tiles@.len(),
        exit_idx == start_idx || final(map).tiles@[exit_idx as int] == Some(TileType::Floor),
        forall|x: int, y: int|
            in_grid(old(map).width as int, old(map).height as int, x, y)
                ==> #[trigger] tile_at(*final(map), x, y) == (
            if floor_at(old(map).tiles@, old(map).width as int, x, y) {
                if reachable(
                    old(map).tiles@,
                    old(map).width as int,
                    old(map).height as int,
                    start_idx as int % old(map).width as int,
                    start_idx as int / old(map).width as int,
                    x,
                    y,
                ) {
                    Some(TileType::Floor)
                } else {
                    Some(TileType::Wall)
                }
            } else {
                tile_at(*old(map), x, y)
            }),
        forall|x: int, y: int|
            in_grid(old(map).width as int, old(map).height as int, x, y) && #[trigger] floor_at(
                final(map).tiles@,
                old(map).width as int,
                x,
                y,
            ) ==> reachable(
                final(map).tiles@,
                old(map).width as int,
                old(map).height as int,
                start_idx as int % old(map).width as int,
                start_idx as int / old(map).width as int,
                x,
                y,
            ),
{
    let ghost w = old(map).width as int;
    let ghost h = old(map).height as int;
    let ghost t0 = old(map).tiles@;
    let ghost sx = start_idx as int % w;
    let ghost sy = start_idx as int / w;
    let len = map.tiles.len();
    proof {
        crate::grid::lemma_flat_index_coords(w, h, start_idx as int);
    }

    let start_is_floor = match map.tiles[start_idx] {
        Some(TileType::Floor) => true,
        _ => false,
    };

    if !start_is_floor {
        // The start tile is not Floor: nothing is reachable, so every Floor
        // tile becomes Wall.
        proof {
            assert(!floor_at(t0, w, sx, sy));
        }
        let mut i: usize = 0;
        while i < len
            invariant
                map.wf(),
                map.width == old(map).width,
                map.height == old(map).height,
                w == map.width as int,
                h == map.height as int,
                len == map.tiles@.len(),
                t0.len() == len,
                i <= len,
                forall|j: int|
                    0 <= j < i ==> #[trigger] map.tiles@[j] == (if t0[j] == Some(TileType::Floor) {
                        Some(TileType::Wall)
                    } else {
                        t0[j]
                    }),
                forall|j: int| i <= j < len ==> #[trigger] map.tiles@[j] == t0[j],
            decreases len - i,
        {
            let is_floor = match map.tiles[i] {
                Some(TileType::Floor) => true,
                _ => false,
            };
            if is_floor {
                map.tiles[i] = Some(TileType::Wall);
            }
            i = i + 1;
        }
        proof {
            assert forall|x: int, y: int| in_grid(w, h, x, y) implies #[trigger] tile_at(
                *map,
                x,
                y,
            ) == (if floor_at(t0, w, x, y) {
                if reachable(t0, w, h, sx, sy, x, y) {
                    Some(TileType::Floor)
                } else {
                    Some(TileType::Wall)
                }
            } else {
                tile_at(*old(map), x, y)
            }) by {
                lemma_coords_to_index(w, h, x, y);
                if reachable(t0, w, h, sx, sy, x, y) {
                    lemma_reachable_ends(t0, w, h, sx, sy, x, y, MAX_FLOOD_DEPTH as nat);
                }
            }
            assert forall|x: int, y: int|
                in_grid(w, h, x, y) && #[trigger] floor_at(
                    map.tiles@,
                    w,
                    x,
                    y,
                ) implies reachable(map.tiles@, w, h, sx, sy, x, y) by {
                lemma_coords_to_index(w, h, x, y);
                assert(map.tiles@[y * w + x] != Some(TileType::Floor));
            }
        }
        return start_idx;
    }

    let dist = flood_distances(map, start_idx);
    let ghost dv = dist@;

    let mut exit_idx: usize = start_idx;
    let mut best: u32 = 0;
    let mut i: usize = 0;
    while i < len
        invariant
            map.wf(),
            map.width == old(map).width,
            map.height == old(map).height,
            w == map.width as int,
            h == map.height as int,
            len == map.tiles@.len(),
            t0.len() == len,
            dist@.len() == len,
            dv == dist@,
            i <= len,
            exit_idx < len,
            exit_idx == start_idx || (exit_idx < i && t0[exit_idx as int] == Some(TileType::Floor)
                && dv[exit_idx as int] != UNREACHED),
            forall|j: int|
                0 <= j < i ==> #[trigger] map.tiles@[j] == (if t0[j] == Some(TileType::Floor)
                    && dv[j] == UNREACHED {
                    Some(TileType::Wall)
                } else {
                    t0[j]
                }),
            forall|j: int| i <= j < len ==> #[trigger] map.tiles@[j] == t0[j],
        decreases len - i,
    {
        let is_floor = match map.tiles[i] {
            Some(TileType::Floor) => true,
            _ => false,
        };
        if is_floor {
            let di = dist[i];
            if di == UNREACHED {
                // We cannot get to this tile, so make it a wall.
                map.tiles[i] = Some(TileType::Wall);
            } else {
                // If it is farther than the current exit candidate, move
                // the exit there.
                if di > best {
                    best = di;
                    exit_idx = i;
                }
            }
        }
        i = i + 1;
    }

    proof {
        let t1 = map.tiles@;
        assert forall|x: int, y: int| in_grid(w, h, x, y) implies #[trigger] tile_at(*map, x, y)
            == (if floor_at(t0, w, x, y) {
            if reachable(t0, w, h, sx, sy, x, y) {
                Some(TileType::Floor)
            } else {
                Some(TileType::Wall)
            }
        } else {
            tile_at(*old(map), x, y)
        }) by {
            lemma_coords_to_index(w, h, x, y);
            if floor_at(t0, w, x, y) {
                if reachable(t0, w, h, sx, sy, x, y) {
                    lemma_flood_complete(
                        t0,
                        dv,
                        w,
                        h,
                        sx,
                        sy,
                        x,
                        y,
                        MAX_FLOOD_DEPTH as nat,
                    );
                    assert(is_set(dv, w, x, y));
                } else {
                    if is_set(dv, w, x, y) {
                        lemma_flood_reaches_over(t0, t0, dv, w, h, sx, sy, x, y);
                        lemma_reachable_mono(
                            t0,
                            w,
                            h,
                            sx,
                            sy,
                            x,
                            y,
                            dval(dv, w, x, y) as nat,
                            MAX_FLOOD_DEPTH as nat,
                        );
                    }
                }
            }
        }
        assert forall|x: int, y: int|
            in_grid(w, h, x, y) && #[trigger] floor_at(t1, w, x, y) implies reachable(
            t1,
            w,
            h,
            sx,
            sy,
            x,
            y,
        ) by {
            lemma_coords_to_index(w, h, x, y);
            assert(t0[y * w + x] == Some(TileType::Floor) && is_set(dv, w, x, y));
            assert forall|ax: int, ay: int|
                in_grid(w, h, ax, ay) && #[trigger] is_set(dv, w, ax, ay) implies floor_at(
                t1,
                w,
                ax,
                ay,
            ) by {
                lemma_coords_to_index(w, h, ax, ay);
            }
            lemma_flood_reaches_over(t0, t1, dv, w, h, sx, sy, x, y);
            lemma_reachable_mono(
                t1,
                w,
                h,
                sx,
                sy,
                x,
                y,
                dval(dv, w, x, y) as nat,
                MAX_FLOOD_DEPTH as nat,
            );
        }
    }
    exit_idx
}

/// Reachability survives adding Floor tiles: whatever was reachable over
/// `t1` is reachable over any `t2` that keeps every Floor tile of `t1`.
pub proof fn lemma_reachable_widen(
    t1: Seq<Option<TileType>>,
    t2: Seq<Option<TileType>>,
    w: int,
    h: int,
    sx: int,
    sy: int,
    x: int,
    y: int,
    n: nat,
)
    requires
        forall|a: int, b: int|
            in_grid(w, h, a, b) && #[trigger] floor_at(t1, w, a, b) ==> floor_at(t2, w, a, b),
        reachable_n(t1, w, h, sx, sy, x, y, n),
    ensures
        reachable_n(t2, w, h, sx, sy, x, y, n),
    decreases n,
{
    lemma_reachable_ends(t1, w, h, sx, sy, x, y, n);
    if n == 0 {
        assert(floor_at(t2, w, sx, sy));
    } else {
        let m = (n - 1) as nat;
        assert(floor_at(t2, w, x, y));
        if reachable_n(t1, w, h, sx, sy, x, y, m) {
            lemma_reachable_widen(t1, t2, w, h, sx, sy, x, y, m);
        } else if reachable_n(t1, w, h, sx, sy, x - 1, y, m) {
            lemma_reachable_widen(t1, t2, w, h, sx, sy, x - 1, y, m);
        } else if reachable_n(t1, w, h, sx, sy, x + 1, y, m) {
            lemma_reachable_widen(t1, t2, w, h, sx, sy, x + 1, y, m);
        } else if reachable_n(t1, w, h, sx, sy, x, y - 1, m) {
            lemma_reachable_widen(t1, t2, w, h, sx, sy, x, y - 1, m);
        } else {
            lemma_reachable_widen(t1, t2, w, h, sx, sy, x, y + 1, m);
        }
    }
}

/// Walking along an all-Floor row extends reachability, one step per cell.
pub proof fn lemma_reach_along_row(
    t: Seq<Option<TileType>>,
    w: int,
    h: int,
    sx: int,
    sy: int,
    y: int,
    xa: int,
    xb: int,
    n: nat,
)
    requires
        reachable_n(t, w, h, sx, sy, xa, y, n),
        0 <= y < h,
        0 <= xa < w,
        0 <= xb < w,
        forall|x: int|
            (if xa < xb {
                xa
            } else {
                xb
            }) <= x <= (if xa < xb {
                xb
            } else {
                xa
            }) ==> #[trigger] floor_at(t, w, x, y),
    ensures
        reachable_n(t, w, h, sx, sy, xb, y, (n + crate::common::abs_diff(xa, xb)) as nat),
    decreases crate::common::abs_diff(xa, xb),
{
    if xa == xb {
    } else {
        let xn: int = if xa < xb {
            xa + 1
        } else {
            xa - 1
        };
        assert(floor_at(t, w, xn, y));
        assert(reachable_n(t, w, h, sx, sy, xn, y, (n + 1) as nat));
        lemma_reach_along_row(t, w, h, sx, sy, y, xn, xb, (n + 1) as nat);
    }
}

/// Walking along an all-Floor column extends reachability, one step per
/// cell.
pub proof fn lemma_reach_along_column(
    t: Seq<Option<TileType>>,
    w: int,
    h: int,
    sx: int,
    sy: int,
    x: int,
    ya: int,
    yb: int,
    n: nat,
)
    requires
        reachable_n(t, w, h, sx, sy, x, ya, n),
        0 <= x < w,
        0 <= ya < h,
        0 <= yb < h,
        forall|y: int|
            (if ya < yb {
                ya
            } else {
                yb
            }) <= y <= (if ya < yb {
                yb
            } else {
                ya
            }) ==> #[trigger] floor_at(t, w, x, y),
    ensures
        reachable_n(t, w, h, sx, sy, x, yb, (n + crate::common::abs_diff(ya, yb)) as nat),
    decreases crate::common::abs_diff(ya, yb),
{
    if ya == yb {
    } else {
        let yn: int = if ya < yb {
            ya + 1
        } else {
            ya - 1
        };
        assert(floor_at(t, w, x, yn));
        assert(reachable_n(t, w, h, sx, sy, x, yn, (n + 1) as nat));
        lemma_reach_along_column(t, w, h, sx, sy, x, yn, yb, (n + 1) as nat);
    }
}

/// Walking a carved corridor extends reachability: if every carved cell of
/// the walk is an in-grid Floor tile, the far endpoint is reachable from
/// wherever the near endpoint is, one extra step per cell.
pub proof fn lemma_reach_along_corridor(
    t: Seq<Option<TileType>>,
    w: int,
    h: int,
    sx: int,
    sy: int,
    x1: int,
    y1: int,
    x2: int,
    y2: int,
    n: nat,
)
    requires
        reachable_n(t, w, h, sx, sy, x1, y1, n),
        forall|c: (int, int)|
            crate::common::carved_cells(x1, y1, x2, y2).contains(c) ==> in_grid(w, h, c.0, c.1)
                && floor_at(t, w, c.0, c.1),
    ensures
        reachable_n(
            t,
            w,
            h,
            sx,
            sy,
            x2,
            y2,
            (n + crate::common::abs_diff(x1, x2) + crate::common::abs_diff(y1, y2)) as nat,
        ),
    decreases crate::common::abs_diff(x1, x2) + crate::common::abs_diff(y1, y2),
{
    if x1 == x2 && y1 == y2 {
    } else {
        let (nx, ny) = crate::common::corridor_step(x1, y1, x2, y2);
        assert(crate::common::carved_cells(x1, y1, x2, y2) == crate::common::carved_cells(
            nx,
            ny,
            x2,
            y2,
        ).insert((nx, ny)));
        assert(crate::common::carved_cells(x1, y1, x2, y2).contains((nx, ny)));
        assert(in_grid(w, h, nx, ny) && floor_at(t, w, nx, ny));
        assert(reachable_n(t, w, h, sx, sy, nx, ny, (n + 1) as nat));
        assert forall|c: (int, int)|
            crate::common::carved_cells(nx, ny, x2, y2).contains(c) implies in_grid(
            w,
            h,
            c.0,
            c.1,
        ) && floor_at(t, w, c.0, c.1) by {
            assert(crate::common::carved_cells(x1, y1, x2, y2).contains(c));
        }
        lemma_reach_along_corridor(t, w, h, sx, sy, nx, ny, x2, y2, (n + 1) as nat);
    }
}

} // verus!
