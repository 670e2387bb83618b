use dungeon_gen::Grid;
use dungeon_gen::Rect;
use dungeon_gen::TileType;
use dungeon_gen::common::carve_corridor;
use dungeon_gen::connectivity::remove_unreachable_areas_returning_most_distant;

fn wall_grid(width: i32, height: i32) -> Grid {
    let mut g = Grid::new(width, height);
    for i in 0..g.tiles.len() {
        g.tiles[i] = Some(TileType::Wall);
    }
    g
}

fn floor_cells(g: &Grid) -> Vec<usize> {
    let mut v = Vec::new();
    for (i, t) in g.tiles.iter().enumerate() {
        if *t == Some(TileType::Floor) {
            v.push(i);
        }
    }
    v
}

#[test]
fn grid_new_is_unassigned() {
    let g = Grid::new(7, 5);
    assert_eq!(g.width, 7);
    assert_eq!(g.height, 5);
    assert_eq!(g.tiles.len(), 35);
    assert!(g.tiles.iter().all(|t| t.is_none()));
}

#[test]
fn index_conversions_are_inverses() {
    let g = Grid::new(10, 6);
    for y in 0..6 {
        for x in 0..10 {
            let idx = g.xy_idx(x, y);
            assert_eq!(idx, (y * 10 + x) as usize);
            assert_eq!(g.idx_xy(idx), (x, y));
        }
    }
    assert_eq!(g.xy_idx(3, 2), 23);
    assert_eq!(g.idx_xy(23), (3, 2));
}

#[test]
fn rect_new_sets_bounds() {
    let r = Rect::new(2, 3, 4, 5);
    assert_eq!(r.x1, 2);
    assert_eq!(r.y1, 3);
    assert_eq!(r.x2, 6);
    assert_eq!(r.y2, 8);
}

#[test]
fn rect_intersect_is_inclusive() {
    let a = Rect::new(0, 0, 4, 4);
    let b = Rect::new(4, 4, 3, 3);
    // Touching edges count as intersecting.
    assert!(a.intersect(&b));
    assert!(b.intersect(&a));
    let c = Rect::new(5, 5, 2, 2);
    assert!(!a.intersect(&c));
    assert!(!c.intersect(&a));
    // Every rectangle intersects itself.
    assert!(a.intersect(&a));
}

#[test]
fn rect_center_truncates() {
    let r = Rect::new(1, 2, 4, 5);
    // Bounds are (1, 2) to (5, 7).
    assert_eq!(r.center(), (3, 4));
    let s = Rect::new(0, 0, 3, 3);
    assert_eq!(s.center(), (1, 1));
    // Negative midpoints truncate toward zero, as the machine divides.
    let n = Rect::new(-5, -7, 4, 5);
    // Bounds are (-5, -7) to (-1, -2).
    assert_eq!(n.center(), (-3, -4));
}

#[test]
fn corridor_carves_dogleg_x_first() {
    let mut g = wall_grid(10, 10);
    carve_corridor(&mut g, 2, 2, 5, 4);
    // x runs to the target first, then y: the corner sits at (5, 2).
    let mut expected: Vec<usize> = Vec::new();
    for x in 3..=5 {
        expected.push(g.xy_idx(x, 2));
    }
    for y in 3..=4 {
        expected.push(g.xy_idx(5, y));
    }
    let mut floors = floor_cells(&g);
    floors.sort();
    expected.sort();
    assert_eq!(floors, expected);
}

#[test]
fn corridor_straight_is_symmetric() {
    // On a straight segment the two directions visit the same cells.
    let mut ab = wall_grid(12, 4);
    carve_corridor(&mut ab, 2, 1, 9, 1);
    let start_ab = ab.xy_idx(2, 1);
    ab.tiles[start_ab] = Some(TileType::Floor);

    let mut ba = wall_grid(12, 4);
    carve_corridor(&mut ba, 9, 1, 2, 1);
    let start_ba = ba.xy_idx(9, 1);
    ba.tiles[start_ba] = Some(TileType::Floor);

    assert_eq!(floor_cells(&ab), floor_cells(&ba));
}

#[test]
fn prune_removes_disconnected_region() {
    let mut g = wall_grid(9, 5);
    // Two floor regions separated by a wall column.
    let left = [(1, 1), (2, 1), (1, 2), (2, 2)];
    let right = [(6, 1), (7, 1), (6, 2)];
    for (x, y) in left.iter().chain(right.iter()) {
        let idx = g.xy_idx(*x, *y);
        g.tiles[idx] = Some(TileType::Floor);
    }
    let start = g.xy_idx(1, 1);
    let exit = remove_unreachable_areas_returning_most_distant(&mut g, start);
    assert!(exit < g.tiles.len());
    // The left region survives, the right one is walled over.
    for (x, y) in left.iter() {
        let idx = g.xy_idx(*x, *y);
        assert_eq!(g.tiles[idx], Some(TileType::Floor));
    }
    for (x, y) in right.iter() {
        let idx = g.xy_idx(*x, *y);
        assert_eq!(g.tiles[idx], Some(TileType::Wall));
    }
}

#[test]
fn prune_from_wall_start_clears_everything() {
    let mut g = wall_grid(6, 6);
    let idx = g.xy_idx(3, 3);
    g.tiles[idx] = Some(TileType::Floor);
    // The start tile is a wall: the reachable set is empty.
    let start = g.xy_idx(1, 1);
    remove_unreachable_areas_returning_most_distant(&mut g, start);
    assert!(g.tiles.iter().all(|t| *t == Some(TileType::Wall)));
}

#[test]
fn prune_reports_most_distant_tile() {
    let mut g = wall_grid(8, 3);
    // A single straight hall: the far end is the most distant tile.
    for x in 1..=6 {
        let idx = g.xy_idx(x, 1);
        g.tiles[idx] = Some(TileType::Floor);
    }
    let start = g.xy_idx(1, 1);
    let exit = remove_unreachable_areas_returning_most_distant(&mut g, start);
    assert_eq!(exit, g.xy_idx(6, 1));
}

#[test]
fn wall_texture_reads_neighbours() {
    let mut g = wall_grid(5, 5);
    // Border cells get the fallback.
    assert_eq!(g.wall_texture(0, 0), 0);
    assert_eq!(g.wall_texture(4, 4), 0);
    // All four neighbours are walls.
    assert_eq!(g.wall_texture(2, 2), 206);
    // Clear the north neighbour (y + 1) only: mask 2 + 4 + 8 = 14.
    let idx = g.xy_idx(2, 3);
    g.tiles[idx] = Some(TileType::Floor);
    assert_eq!(g.wall_texture(2, 2), 203);
    // Clear all neighbours: an isolated pillar.
    for (x, y) in [(2, 1), (1, 2), (3, 2)] {
        let idx = g.xy_idx(x, y);
        g.tiles[idx] = Some(TileType::Floor);
    }
    assert_eq!(g.wall_texture(2, 2), 9);
}

#[test]
fn is_wall_reads_cell() {
    let mut g = wall_grid(4, 4);
    assert!(g.is_wall(1, 1));
    let idx = g.xy_idx(1, 1);
    g.tiles[idx] = Some(TileType::Floor);
    assert!(!g.is_wall(1, 1));
}

#[test]
fn grid_clone_is_independent() {
    let mut g = wall_grid(4, 4);
    let snap = g.clone();
    let idx = g.xy_idx(2, 2);
    g.tiles[idx] = Some(TileType::Floor);
    assert_eq!(snap.tiles[idx], Some(TileType::Wall));
    assert_eq!(g.tiles[idx], Some(TileType::Floor));
}
