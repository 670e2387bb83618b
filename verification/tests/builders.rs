use dungeon_gen::Algorithm;
use dungeon_gen::BspInteriorMap;
use dungeon_gen::BspMap;
use dungeon_gen::CellularAutomataBuilder;
use dungeon_gen::DrunkSpawnMode;
use dungeon_gen::DrunkardsWalkBuilder;
use dungeon_gen::Grid;
use dungeon_gen::MapBuilder;
use dungeon_gen::RandomMap;
use dungeon_gen::RandomSource;
use dungeon_gen::RoomsMap;
use dungeon_gen::TileType;

fn complete(g: &Grid, width: i32, height: i32) -> bool {
    g.width == width && g.height == height && g.tiles.len() == (width * height) as usize
        && g.tiles.iter().all(|t| t.is_some())
}

fn all_wall(g: &Grid) -> bool {
    g.tiles.iter().all(|t| *t == Some(TileType::Wall))
}

fn count_kind(g: &Grid, k: TileType) -> usize {
    g.tiles.iter().filter(|t| **t == Some(k)).count()
}

#[test]
fn random_scenario_border_and_count() {
    // A 10 by 10 grid at ratio 4: walls all around rows 0 and 9 and
    // columns 0 and 9, plus 25 random interior wall draws whose collisions
    // may only lower the effective count.
    let mut b = RandomMap::default();
    let mut rng = RandomSource::seeded(7);
    let opts = Algorithm::Random.options();
    let mut opts = opts;
    opts[0].value = 4;
    b.build_map(10, 10, &opts, &mut rng);
    let g = b.get_map();
    assert!(complete(&g, 10, 10));
    for x in 0..10 {
        assert_eq!(g.tiles[g.xy_idx(x, 0)], Some(TileType::Wall));
        assert_eq!(g.tiles[g.xy_idx(x, 9)], Some(TileType::Wall));
    }
    for y in 0..10 {
        assert_eq!(g.tiles[g.xy_idx(0, y)], Some(TileType::Wall));
        assert_eq!(g.tiles[g.xy_idx(9, y)], Some(TileType::Wall));
    }
    let border_walls = 36;
    let interior_walls = count_kind(&g, TileType::Wall) - border_walls;
    assert!(interior_walls <= 25);
    assert!(interior_walls > 0);
}

#[test]
fn random_first_snapshot_is_all_floor() {
    let mut b = RandomMap::default();
    let mut rng = RandomSource::seeded(3);
    let opts = Algorithm::Random.options();
    b.build_map(12, 8, &opts, &mut rng);
    let history = b.get_snapshot_history();
    assert!(history.len() >= 3);
    assert!(history[0].tiles.iter().all(|t| *t == Some(TileType::Floor)));
    for snap in history.iter() {
        assert!(complete(snap, 12, 8));
    }
    // The second snapshot has the top and bottom rows walled, nothing else.
    let rows = &history[1];
    for y in 0..8 {
        for x in 0..12 {
            let expected = if y == 0 || y == 7 {
                Some(TileType::Wall)
            } else {
                Some(TileType::Floor)
            };
            assert_eq!(rows.tiles[rows.xy_idx(x, y)], expected);
        }
    }
}

#[test]
fn random_border_stamp_is_idempotent() {
    // Re-stamping the border of the border-stamped snapshot changes
    // nothing.
    let mut b = RandomMap::default();
    let mut rng = RandomSource::seeded(11);
    let opts = Algorithm::Random.options();
    b.build_map(9, 7, &opts, &mut rng);
    let history = b.get_snapshot_history();
    let stamped = &history[2];
    let mut restamped = stamped.clone();
    for x in 0..9 {
        let top = restamped.xy_idx(x, 0);
        let bottom = restamped.xy_idx(x, 6);
        restamped.tiles[top] = Some(TileType::Wall);
        restamped.tiles[bottom] = Some(TileType::Wall);
    }
    for y in 0..7 {
        let left = restamped.xy_idx(0, y);
        let right = restamped.xy_idx(8, y);
        restamped.tiles[left] = Some(TileType::Wall);
        restamped.tiles[right] = Some(TileType::Wall);
    }
    assert_eq!(restamped.tiles, stamped.tiles);
}

#[test]
fn rooms_never_overlap() {
    let mut b = RoomsMap::default();
    let mut rng = RandomSource::seeded(21);
    let opts = Algorithm::Rooms.options();
    let mut opts = opts;
    opts[0].value = 12;
    opts[1].value = 4;
    opts[2].value = 10;
    b.build_map(50, 40, &opts, &mut rng);
    let g = b.get_map();
    assert!(complete(&g, 50, 40));
    assert!(!b.rooms.is_empty());
    for i in 0..b.rooms.len() {
        for j in 0..b.rooms.len() {
            if i != j {
                assert!(!b.rooms[i].intersect(&b.rooms[j]));
            }
        }
    }
    let history = b.get_snapshot_history();
    assert!(all_wall(&history[0]));
}

#[test]
fn rooms_are_sorted_by_left_edge() {
    let mut b = RoomsMap::default();
    let mut rng = RandomSource::seeded(5);
    let opts = Algorithm::Rooms.options();
    let mut opts = opts;
    opts[0].value = 10;
    opts[1].value = 4;
    opts[2].value = 9;
    b.build_map(40, 40, &opts, &mut rng);
    for w in b.rooms.windows(2) {
        assert!(w[0].x1 <= w[1].x1);
    }
}

#[test]
fn bsp_rooms_never_overlap() {
    let mut b = BspMap::default();
    let mut rng = RandomSource::seeded(42);
    let opts = Algorithm::Bsp.options();
    b.build_map(60, 40, &opts, &mut rng);
    let g = b.get_map();
    assert!(complete(&g, 60, 40));
    assert!(!b.rooms.is_empty());
    for i in 0..b.rooms.len() {
        for j in 0..b.rooms.len() {
            if i != j {
                assert!(!b.rooms[i].intersect(&b.rooms[j]));
            }
        }
    }
    let history = b.get_snapshot_history();
    assert!(all_wall(&history[0]));
}

#[test]
fn bsp_interior_scenario_covers_interior() {
    // min_room_size 6 on a 40 by 30 grid: the room areas sum to the whole
    // interior, (width - 2) * (height - 2).
    let mut b = BspInteriorMap::default();
    let mut rng = RandomSource::seeded(9);
    let opts = Algorithm::BspInterior.options();
    b.build_map(40, 30, &opts, &mut rng);
    let g = b.get_map();
    assert!(complete(&g, 40, 30));
    assert!(!b.rooms.is_empty());
    let area: i64 = b
        .rooms
        .iter()
        .map(|r| (r.x2 - r.x1) as i64 * (r.y2 - r.y1) as i64)
        .sum();
    assert_eq!(area, 38 * 28);
    // No two leaves overlap (half-open bounds).
    for i in 0..b.rooms.len() {
        for j in 0..b.rooms.len() {
            if i != j {
                let a = &b.rooms[i];
                let c = &b.rooms[j];
                let disjoint =
                    a.x2 <= c.x1 || c.x2 <= a.x1 || a.y2 <= c.y1 || c.y2 <= a.y1;
                assert!(disjoint);
            }
        }
    }
    let history = b.get_snapshot_history();
    assert!(all_wall(&history[0]));
    // The finished map is Floor on the whole interior and Wall on the
    // border.
    for y in 0..30 {
        for x in 0..40 {
            let idx = g.xy_idx(x, y);
            let interior = x >= 1 && x < 39 && y >= 1 && y < 29;
            if interior {
                assert_eq!(g.tiles[idx], Some(TileType::Floor));
            } else {
                assert_eq!(g.tiles[idx], Some(TileType::Wall));
            }
        }
    }
}

#[test]
fn cellular_automata_snapshot_count_is_fixed() {
    // One snapshot for the Wall fill, one for the seeding, one per
    // automaton pass, and one after pruning.
    let mut b = CellularAutomataBuilder::default();
    let mut rng = RandomSource::seeded(23);
    let opts = Algorithm::CellularAutomata.options();
    b.build_map(30, 20, &opts, &mut rng);
    assert_eq!(b.get_snapshot_history().len(), 3 + opts[1].value as usize);
}

#[test]
fn cellular_automata_floor_is_connected() {
    let mut b = CellularAutomataBuilder::default();
    let mut rng = RandomSource::seeded(13);
    let opts = Algorithm::CellularAutomata.options();
    b.build_map(50, 40, &opts, &mut rng);
    let g = b.get_map();
    assert!(complete(&g, 50, 40));
    let history = b.get_snapshot_history();
    assert!(all_wall(&history[0]));
    for snap in history.iter() {
        assert!(complete(snap, 50, 40));
    }
    // Every floor tile is reachable from every other: one flood from any
    // floor tile covers them all.
    let floors: Vec<usize> = (0..g.tiles.len())
        .filter(|i| g.tiles[*i] == Some(TileType::Floor))
        .collect();
    if let Some(&start) = floors.first() {
        let mut seen = vec![false; g.tiles.len()];
        let mut queue = vec![start];
        seen[start] = true;
        while let Some(i) = queue.pop() {
            let (x, y) = g.idx_xy(i);
            for (nx, ny) in [(x - 1, y), (x + 1, y), (x, y - 1), (x, y + 1)] {
                if nx >= 0 && nx < g.width && ny >= 0 && ny < g.height {
                    let n = g.xy_idx(nx, ny);
                    if !seen[n] && g.tiles[n] == Some(TileType::Floor) {
                        seen[n] = true;
                        queue.push(n);
                    }
                }
            }
        }
        for &f in floors.iter() {
            assert!(seen[f]);
        }
    }
}

#[test]
fn drunkard_scenario_terminates_and_connects() {
    // StartingPoint mode at a 50 percent floor target on a 60 by 40 grid
    // must finish within the digger ceiling.
    let mut b = DrunkardsWalkBuilder::open_area();
    assert_eq!(b.settings.spawn_mode, DrunkSpawnMode::StartingPoint);
    assert_eq!(b.settings.drunken_lifetime, 400);
    assert_eq!(b.settings.floor_percent, 50);
    let mut rng = RandomSource::seeded(99);
    let opts: Vec<dungeon_gen::Param> = Vec::new();
    b.build_map(60, 40, &opts, &mut rng);
    let g = b.get_map();
    assert!(complete(&g, 60, 40));
    assert_eq!(b.starting_position, (30, 20));
    assert!(count_kind(&g, TileType::Floor) > 0);
    // The center start survives pruning as a floor tile.
    assert_eq!(g.tiles[g.xy_idx(30, 20)], Some(TileType::Floor));
    // The diggers' clamp never reaches the outer rows and columns.
    for y in 0..40 {
        for x in 0..60 {
            if x < 2 || x > 58 || y < 2 || y > 38 {
                assert_eq!(g.tiles[g.xy_idx(x, y)], Some(TileType::Wall));
            }
        }
    }
    let history = b.get_snapshot_history();
    assert!(all_wall(&history[0]));
    for snap in history.iter() {
        assert!(complete(snap, 60, 40));
    }
}

#[test]
fn drunkard_variants_carry_their_settings() {
    let halls = DrunkardsWalkBuilder::open_halls();
    assert_eq!(halls.settings.spawn_mode, DrunkSpawnMode::Random);
    assert_eq!(halls.settings.drunken_lifetime, 400);
    assert_eq!(halls.settings.floor_percent, 50);
    let winding = DrunkardsWalkBuilder::winding_passages();
    assert_eq!(winding.settings.spawn_mode, DrunkSpawnMode::Random);
    assert_eq!(winding.settings.drunken_lifetime, 100);
    assert_eq!(winding.settings.floor_percent, 40);
}

#[test]
fn builder_union_runs_every_algorithm() {
    let mut rng = RandomSource::seeded(17);
    for alg in Algorithm::all() {
        let mut builder = alg.get();
        let opts = alg.options();
        builder.build_map(30, 24, &opts, &mut rng);
        let g = builder.get_map();
        assert!(complete(&g, 30, 24));
        let history = builder.get_snapshot_history();
        assert!(!history.is_empty());
        let first = &history[0];
        if alg == Algorithm::Random {
            assert!(first.tiles.iter().all(|t| *t == Some(TileType::Floor)));
        } else {
            assert!(all_wall(first));
        }
        for snap in history.iter() {
            assert!(complete(snap, 30, 24));
        }
    }
}

#[test]
fn builder_before_build_serves_empty_state() {
    let builder = Algorithm::Rooms.get();
    let g = builder.get_map();
    assert_eq!(g.width, 0);
    assert_eq!(g.height, 0);
    assert_eq!(g.tiles.len(), 0);
    assert!(builder.get_snapshot_history().is_empty());
}

#[test]
fn take_snapshot_appends_in_order() {
    let mut builder = MapBuilder::Random(RandomMap::default());
    builder.take_snapshot();
    builder.take_snapshot();
    let history = builder.get_snapshot_history();
    assert_eq!(history.len(), 2);
}

fn floors_connected_to(g: &Grid, sx: i32, sy: i32) -> Vec<bool> {
    let mut seen = vec![false; g.tiles.len()];
    let start = g.xy_idx(sx, sy);
    if g.tiles[start] != Some(TileType::Floor) {
        return seen;
    }
    let mut queue = vec![start];
    seen[start] = true;
    while let Some(i) = queue.pop() {
        let (x, y) = g.idx_xy(i);
        for (nx, ny) in [(x - 1, y), (x + 1, y), (x, y - 1), (x, y + 1)] {
            if nx >= 0 && nx < g.width && ny >= 0 && ny < g.height {
                let n = g.xy_idx(nx, ny);
                if !seen[n] && g.tiles[n] == Some(TileType::Floor) {
                    seen[n] = true;
                    queue.push(n);
                }
            }
        }
    }
    seen
}

#[test]
fn rooms_corridors_connect_every_room() {
    let mut b = RoomsMap::default();
    let mut rng = RandomSource::seeded(31);
    let opts = Algorithm::Rooms.options();
    let mut opts = opts;
    opts[0].value = 8;
    opts[1].value = 4;
    opts[2].value = 10;
    b.build_map(48, 36, &opts, &mut rng);
    assert!(!b.rooms.is_empty());
    let g = b.get_map();
    let (cx, cy) = b.rooms[0].center();
    let seen = floors_connected_to(&g, cx, cy);
    for room in b.rooms.iter() {
        let (x, y) = room.center();
        assert!(seen[g.xy_idx(x, y)]);
    }
}

#[test]
fn bsp_corridors_connect_every_room() {
    let mut b = BspMap::default();
    let mut rng = RandomSource::seeded(57);
    let opts = Algorithm::Bsp.options();
    b.build_map(60, 40, &opts, &mut rng);
    assert!(b.rooms.len() >= 2);
    let g = b.get_map();
    let first = &b.rooms[0];
    let seen = floors_connected_to(&g, first.x1 + 1, first.y1 + 1);
    for room in b.rooms.iter() {
        assert!(seen[g.xy_idx(room.x1 + 1, room.y1 + 1)]);
    }
}

#[test]
fn seeded_runs_are_reproducible() {
    let opts = Algorithm::CellularAutomata.options();
    let mut first = CellularAutomataBuilder::default();
    let mut rng1 = RandomSource::seeded(1234);
    first.build_map(40, 30, &opts, &mut rng1);
    let mut second = CellularAutomataBuilder::default();
    let mut rng2 = RandomSource::seeded(1234);
    second.build_map(40, 30, &opts, &mut rng2);
    assert_eq!(first.get_map().tiles, second.get_map().tiles);
}

#[test]
fn random_draws_stay_in_range_and_vary() {
    let mut rng = RandomSource::seeded(77);
    let mut distinct = std::collections::HashSet::new();
    for _ in 0..200 {
        let v = rng.rand_range(0, 1000);
        assert!((0..1000).contains(&v));
        distinct.insert(v);
    }
    assert!(distinct.len() > 10);
}
