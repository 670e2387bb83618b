//! The algorithm registry: the available algorithms, their descriptions,
//! their default option schemas, and the factory that maps a selection to
//! a fresh builder instance.

use vstd::prelude::*;

use crate::bsp::BspMap;
use crate::bsp_interior::BspInteriorMap;
use crate::builder::MapBuilder;
use crate::cellular_automata::CellularAutomataBuilder;
use crate::drunkard_walk::DrunkSpawnMode;
use crate::drunkard_walk::DrunkardsWalkBuilder;
use crate::random::RandomMap;
use crate::rooms::RoomsMap;

verus! {

/// One tunable numeric option of an algorithm: a name, a current value and
/// its inclusive legal range. Order is significant: algorithms index their
/// options positionally.
#[derive(Clone, Copy)]
pub struct Param {
    pub name: &'static str,
    pub value: i32,
    pub min: i32,
    pub max: i32,
}

/// `p` carries the given name, value and range.
pub open spec fn param_is(p: Param, name: Seq<char>, value: int, min: int, max: int) -> bool {
    p.name@ == name && p.value == value && p.min == min && p.max == max
}

/// The selectable generation algorithms. `Unselected` is the state of a
/// configuration session before a choice is made.
#[derive(PartialEq, Eq, Structural, Copy, Clone, Debug)]
pub enum Algorithm {
    Unselected,
    Random,
    Rooms,
    Bsp,
    BspInterior,
    CellularAutomata,
    Drunkard,
}

impl Default for Algorithm {
    fn default() -> (r: Algorithm)
        ensures
            r == Algorithm::Unselected,
    {
        Algorithm::Unselected
    }
}

impl Algorithm {
    /// Every selectable algorithm, in registry order.
    pub fn all() -> (r: Vec<Algorithm>)
        ensures
            r@ =~= seq![
                Algorithm::Random,
                Algorithm::Rooms,
                Algorithm::Bsp,
                Algorithm::BspInterior,
                Algorithm::CellularAutomata,
                Algorithm::Drunkard,
            ],
    {
        let mut r: Vec<Algorithm> = Vec::new();
        r.push(Algorithm::Random);
        r.push(Algorithm::Rooms);
        r.push(Algorithm::Bsp);
        r.push(Algorithm::BspInterior);
        r.push(Algorithm::CellularAutomata);
        r.push(Algorithm::Drunkard);
        r
    }

    /// A fresh builder instance for the algorithm, ready for one run.
    /// Asking for a builder of `Unselected` is a caller contract violation.
    pub fn get(&self) -> (r: MapBuilder)
        requires
            *self != Algorithm::Unselected,
        ensures
            r.fresh(),
            r.map_of().width == 0,
            r.map_of().height == 0,
            r.map_of().tiles@.len() == 0,
            *self == Algorithm::Drunkard ==> (r matches MapBuilder::Drunkard(b)
                && b.settings.spawn_mode == DrunkSpawnMode::StartingPoint
                && b.settings.drunken_lifetime == 400 && b.settings.floor_percent == 50),
            *self == Algorithm::Random ==> r is Random,
            *self == Algorithm::Rooms ==> r is Rooms,
            *self == Algorithm::Bsp ==> r is Bsp,
            *self == Algorithm::BspInterior ==> r is BspInterior,
            *self == Algorithm::CellularAutomata ==> r is CellularAutomata,
            *self == Algorithm::Drunkard ==> r is Drunkard,
    {
        match self {
            Algorithm::Random => MapBuilder::Random(RandomMap::default()),
            Algorithm::Rooms => MapBuilder::Rooms(RoomsMap::default()),
            Algorithm::Bsp => MapBuilder::Bsp(BspMap::default()),
            Algorithm::BspInterior => MapBuilder::BspInterior(BspInteriorMap::default()),
            Algorithm::CellularAutomata => MapBuilder::CellularAutomata(
                CellularAutomataBuilder::default(),
            ),
            Algorithm::Drunkard => MapBuilder::Drunkard(DrunkardsWalkBuilder::open_area()),
            Algorithm::Unselected => vstd::pervasive::unreached(),
        }
    }

    /// The display name of the algorithm.
    pub fn name(&self) -> (r: &'static str)
        ensures
            *self == Algorithm::Unselected ==> r@ == "None"@,
            *self == Algorithm::Random ==> r@ == "Random walls"@,
            *self == Algorithm::Rooms ==> r@ == "Rooms and corridors"@,
            *self == Algorithm::Bsp ==> r@ == "BSP"@,
            *self == Algorithm::BspInterior ==> r@ == "BSP without corridors"@,
            *self == Algorithm::CellularAutomata ==> r@ == "Cellular automata"@,
            *self == Algorithm::Drunkard ==> r@ == "Drunkard's walk"@,
    {
        match self {
            Algorithm::Unselected => "None",
            Algorithm::Random => "Random walls",
            Algorithm::Rooms => "Rooms and corridors",
            Algorithm::Bsp => "BSP",
            Algorithm::BspInterior => "BSP without corridors",
            Algorithm::CellularAutomata => "Cellular automata",
            Algorithm::Drunkard => "Drunkard's walk",
        }
    }

    /// A one-line description. Asking for the description of `Unselected`
    /// is a caller contract violation.
    pub fn description(&self) -> (r: &'static str)
        requires
            *self != Algorithm::Unselected,
        ensures
            *self == Algorithm::Random ==> r@ == "Place walls at the edges and randomly elsewhere"@,
            *self == Algorithm::Rooms ==> r@
                == "Place random rooms and connect them with corridors"@,
            *self == Algorithm::Bsp ==> r@
                == "Divide the map into rooms with a binary space partitioning algorithm"@,
            *self == Algorithm::BspInterior ==> r@
                == "Divide the map into rooms with a binary space partitioning algorithm, filling the whole map"@,
            *self == Algorithm::CellularAutomata ==> r@
                == "Use cellular automata to generate the map"@,
            *self == Algorithm::Drunkard ==> r@ == "Use a drunkard's walk to generate the map"@,
    {
        match self {
            Algorithm::Random => "Place walls at the edges and randomly elsewhere",
            Algorithm::Rooms => "Place random rooms and connect them with corridors",
            Algorithm::Bsp => {
                "Divide the map into rooms with a binary space partitioning algorithm"
            },
            Algorithm::BspInterior => {
                "Divide the map into rooms with a binary space partitioning algorithm, filling the whole map"
            },
            Algorithm::CellularAutomata => "Use cellular automata to generate the map",
            Algorithm::Drunkard => "Use a drunkard's walk to generate the map",
            Algorithm::Unselected => vstd::pervasive::unreached(),
        }
    }

    /// The canonical default option schema of the algorithm, in the order
    /// its builder reads them. Every option's default value lies inside its
    /// own inclusive legal range.
    pub fn options(&self) -> (r: Vec<Param>)
        ensures
            forall|k: int|
                0 <= k < r@.len() ==> (#[trigger] r@[k]).min <= r@[k].value && r@[k].value
                    <= r@[k].max,
            *self == Algorithm::Random ==> r@.len() == 1 && param_is(r@[0], "Ratio"@, 4, 1, 10),
            *self == Algorithm::Rooms ==> r@.len() == 3 && param_is(r@[0], "Max rooms"@, 5, 1, 30)
                && param_is(r@[1], "Min room size"@, 4, 4, 10) && param_is(
                r@[2],
                "Max room size"@,
                10,
                10,
                15,
            ),
            *self == Algorithm::Bsp ==> r@.len() == 1 && param_is(r@[0], "Max rooms"@, 240, 1, 350),
            *self == Algorithm::BspInterior ==> r@.len() == 2 && param_is(
                r@[0],
                "Min room size"@,
                6,
                6,
                100,
            ) && param_is(r@[1], "Vertical split percentage"@, 50, 1, 100),
            *self == Algorithm::CellularAutomata ==> r@.len() == 2 && param_is(
                r@[0],
                "Floor percentage"@,
                55,
                1,
                100,
            ) && param_is(r@[1], "Iterations"@, 15, 1, 100),
            *self == Algorithm::Drunkard ==> r@.len() == 0,
            *self == Algorithm::Unselected ==> r@.len() == 0,
    {
        let mut r: Vec<Param> = Vec::new();
        match self {
            Algorithm::Random => {
                r.push(Param { name: "Ratio", value: 4, min: 1, max: 10 });
            },
            Algorithm::Rooms => {
                r.push(Param { name: "Max rooms", value: 5, min: 1, max: 30 });
                r.push(Param { name: "Min room size", value: 4, min: 4, max: 10 });
                r.push(Param { name: "Max room size", value: 10, min: 10, max: 15 });
            },
            Algorithm::Bsp => {
                r.push(Param { name: "Max rooms", value: 240, min: 1, max: 350 });
            },
            Algorithm::BspInterior => {
                r.push(Param { name: "Min room size", value: 6, min: 6, max: 100 });
                r.push(Param { name: "Vertical split percentage", value: 50, min: 1, max: 100 });
            },
            Algorithm::CellularAutomata => {
                r.push(Param { name: "Floor percentage", value: 55, min: 1, max: 100 });
                r.push(Param { name: "Iterations", value: 15, min: 1, max: 100 });
            },
            _ => {},
        }
        r
    }
}

} // verus!
