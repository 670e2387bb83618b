//! The builder contract: one closed union over the algorithm builders,
//! dispatched through a single interface. A fresh instance runs one
//! generation and then serves its map and snapshot history read-only.

use vstd::prelude::*;

use std::collections::VecDeque;

use crate::algorithms::Param;
use crate::bsp::BspMap;
use crate::bsp_interior::BspInteriorMap;
use crate::cellular_automata::CellularAutomataBuilder;
use crate::common::all_tile;
use crate::common::grid_complete;
use crate::common::grid_matches;
use crate::common::history_complete;
use crate::drunkard_walk::DrunkardsWalkBuilder;
use crate::grid::Grid;
use crate::grid::TileType;
use crate::random::RandomMap;
use crate::rng::RandomSource;
use crate::rooms::RoomsMap;

verus! {

/// One generation run of one algorithm: the live grid, the working state,
/// and the snapshot history.
pub enum MapBuilder {
    Random(RandomMap),
    Rooms(RoomsMap),
    Bsp(BspMap),
    BspInterior(BspInteriorMap),
    CellularAutomata(CellularAutomataBuilder),
    Drunkard(DrunkardsWalkBuilder),
}

impl MapBuilder {
    /// The live grid of the run.
    pub open spec fn map_of(self) -> Grid {
        match self {
            MapBuilder::Random(b) => b.map,
            MapBuilder::Rooms(b) => b.map,
            MapBuilder::Bsp(b) => b.map,
            MapBuilder::BspInterior(b) => b.map,
            MapBuilder::CellularAutomata(b) => b.map,
            MapBuilder::Drunkard(b) => b.map,
        }
    }

    /// The snapshot history of the run, oldest first.
    pub open spec fn snaps_of(self) -> Seq<Grid> {
        match self {
            MapBuilder::Random(b) => b.snapshots@,
            MapBuilder::Rooms(b) => b.snapshots@,
            MapBuilder::Bsp(b) => b.snapshots@,
            MapBuilder::BspInterior(b) => b.snapshots@,
            MapBuilder::CellularAutomata(b) => b.snapshots@,
            MapBuilder::Drunkard(b) => b.snapshots@,
        }
    }

    /// The builder has not run yet: no snapshots, no working state.
    pub open spec fn fresh(self) -> bool {
        &&& self.snaps_of().len() == 0
        &&& match self {
            MapBuilder::Rooms(b) => b.rooms@.len() == 0,
            MapBuilder::Bsp(b) => b.rooms@.len() == 0,
            MapBuilder::BspInterior(b) => b.rooms@.len() == 0,
            MapBuilder::Drunkard(b) => b.settings.drunken_lifetime >= 0 && b.settings.floor_percent
                >= 0,
            _ => true,
        }
    }

    /// What each algorithm asks of its dimensions and ordered options.
    pub open spec fn build_ok(self, w: int, h: int, opts: Seq<Param>) -> bool {
        w * h <= i32::MAX && match self {
            MapBuilder::Random(_) => 3 <= w && 3 <= h && opts.len() >= 1 && opts[0].value >= 1,
            MapBuilder::Rooms(_) => opts.len() >= 3 && 1 <= opts[1].value < opts[2].value
                && opts[2].value + 2 <= w && opts[2].value + 2 <= h,
            MapBuilder::Bsp(_) => 5 <= w && 5 <= h && opts.len() >= 1 && opts[0].value <= 1000000,
            MapBuilder::BspInterior(_) => 3 <= w && 3 <= h && opts.len() >= 2,
            MapBuilder::CellularAutomata(_) => 3 <= w && 3 <= h && opts.len() >= 2,
            MapBuilder::Drunkard(_) => 4 <= w && 4 <= h,
        }
    }

    /// Runs the whole generation: every algorithm fills every cell, takes
    /// its fill as the first snapshot — all Wall, except the uniform-random
    /// algorithm, which fills Floor first — and keeps every later snapshot
    /// complete at the same size.
    pub fn build_map(&mut self, width: i32, height: i32, options: &[Param], rng: &mut RandomSource)
        requires
            old(self).fresh(),
            old(self).build_ok(width as int, height as int, options@),
        ensures
            grid_complete(final(self).map_of(), width as int, height as int),
            history_complete(final(self).snaps_of(), width as int, height as int),
            final(self).snaps_of().len() >= 1,
            (*old(self)) is Random ==> all_tile(
                final(self).snaps_of()[0].tiles@,
                TileType::Floor,
            ),
            !((*old(self)) is Random) ==> all_tile(
                final(self).snaps_of()[0].tiles@,
                TileType::Wall,
            ),
            ((*final(self)) is Random) == ((*old(self)) is Random),
            ((*final(self)) is Rooms) == ((*old(self)) is Rooms),
            ((*final(self)) is Bsp) == ((*old(self)) is Bsp),
            ((*final(self)) is BspInterior) == ((*old(self)) is BspInterior),
            ((*final(self)) is CellularAutomata) == ((*old(self)) is CellularAutomata),
            ((*final(self)) is Drunkard) == ((*old(self)) is Drunkard),
    {
        match self {
            MapBuilder::Random(b) => b.build_map(width, height, options, rng),
            MapBuilder::Rooms(b) => b.build_map(width, height, options, rng),
            MapBuilder::Bsp(b) => b.build_map(width, height, options, rng),
            MapBuilder::BspInterior(b) => b.build_map(width, height, options, rng),
            MapBuilder::CellularAutomata(b) => b.build_map(width, height, options, rng),
            MapBuilder::Drunkard(b) => b.build_map(width, height, options, rng),
        }
    }

    /// The current map, by value: the final map once built, the default
    /// empty grid before.
    pub fn get_map(&self) -> (g: Grid)
        ensures
            grid_matches(g, self.map_of()),
    {
        match self {
            MapBuilder::Random(b) => b.get_map(),
            MapBuilder::Rooms(b) => b.get_map(),
            MapBuilder::Bsp(b) => b.get_map(),
            MapBuilder::BspInterior(b) => b.get_map(),
            MapBuilder::CellularAutomata(b) => b.get_map(),
            MapBuilder::Drunkard(b) => b.get_map(),
        }
    }

    /// Appends an independent copy of the live map to the history: the one
    /// way new history entries appear, so insertion order is chronological
    /// order.
    pub fn take_snapshot(&mut self)
        ensures
            final(self).map_of() == old(self).map_of(),
            final(self).snaps_of().len() == old(self).snaps_of().len() + 1,
            forall|k: int|
                0 <= k < old(self).snaps_of().len() ==> final(self).snaps_of()[k] == old(
                    self,
                ).snaps_of()[k],
            grid_matches(final(self).snaps_of().last(), old(self).map_of()),
    {
        match self {
            MapBuilder::Random(b) => b.take_snapshot(),
            MapBuilder::Rooms(b) => b.take_snapshot(),
            MapBuilder::Bsp(b) => b.take_snapshot(),
            MapBuilder::BspInterior(b) => b.take_snapshot(),
            MapBuilder::CellularAutomata(b) => b.take_snapshot(),
            MapBuilder::Drunkard(b) => b.take_snapshot(),
        }
    }

    /// The ordered history of snapshots, by value, oldest first: the
    /// expected replay order.
    pub fn get_snapshot_history(&self) -> (h: VecDeque<Grid>)
        ensures
            h@.len() == self.snaps_of().len(),
            forall|k: int| 0 <= k < h@.len() ==> grid_matches(#[trigger] h@[k], self.snaps_of()[k]),
    {
        match self {
            MapBuilder::Random(b) => b.get_snapshot_history(),
            MapBuilder::Rooms(b) => b.get_snapshot_history(),
            MapBuilder::Bsp(b) => b.get_snapshot_history(),
            MapBuilder::BspInterior(b) => b.get_snapshot_history(),
            MapBuilder::CellularAutomata(b) => b.get_snapshot_history(),
            MapBuilder::Drunkard(b) => b.get_snapshot_history(),
        }
    }
}

} // verus!
