use dungeon_gen::Algorithm;

#[test]
fn all_lists_every_algorithm_in_order() {
    let all = Algorithm::all();
    assert_eq!(
        all,
        vec![
            Algorithm::Random,
            Algorithm::Rooms,
            Algorithm::Bsp,
            Algorithm::BspInterior,
            Algorithm::CellularAutomata,
            Algorithm::Drunkard,
        ]
    );
}

#[test]
fn default_algorithm_is_unselected() {
    assert_eq!(Algorithm::default(), Algorithm::Unselected);
}

#[test]
fn names_match_registry() {
    assert_eq!(Algorithm::Unselected.name(), "None");
    assert_eq!(Algorithm::Random.name(), "Random walls");
    assert_eq!(Algorithm::Rooms.name(), "Rooms and corridors");
    assert_eq!(Algorithm::Bsp.name(), "BSP");
    assert_eq!(Algorithm::BspInterior.name(), "BSP without corridors");
    assert_eq!(Algorithm::CellularAutomata.name(), "Cellular automata");
    assert_eq!(Algorithm::Drunkard.name(), "Drunkard's walk");
}

#[test]
fn descriptions_match_registry() {
    assert_eq!(
        Algorithm::Random.description(),
        "Place walls at the edges and randomly elsewhere"
    );
    assert_eq!(
        Algorithm::Rooms.description(),
        "Place random rooms and connect them with corridors"
    );
    assert_eq!(
        Algorithm::Bsp.description(),
        "Divide the map into rooms with a binary space partitioning algorithm"
    );
    assert_eq!(
        Algorithm::BspInterior.description(),
        "Divide the map into rooms with a binary space partitioning algorithm, filling the whole map"
    );
    assert_eq!(
        Algorithm::CellularAutomata.description(),
        "Use cellular automata to generate the map"
    );
    assert_eq!(
        Algorithm::Drunkard.description(),
        "Use a drunkard's walk to generate the map"
    );
}

#[test]
fn option_values_lie_in_their_ranges() {
    let mut algs = Algorithm::all();
    algs.push(Algorithm::Unselected);
    for alg in algs {
        for o in alg.options() {
            assert!(o.min <= o.value && o.value <= o.max);
        }
    }
}

#[test]
fn option_schemas_match_registry() {
    let random = Algorithm::Random.options();
    assert_eq!(random.len(), 1);
    assert_eq!(
        (random[0].name, random[0].value, random[0].min, random[0].max),
        ("Ratio", 4, 1, 10)
    );

    let rooms = Algorithm::Rooms.options();
    assert_eq!(rooms.len(), 3);
    assert_eq!(
        (rooms[0].name, rooms[0].value, rooms[0].min, rooms[0].max),
        ("Max rooms", 5, 1, 30)
    );
    assert_eq!(
        (rooms[1].name, rooms[1].value, rooms[1].min, rooms[1].max),
        ("Min room size", 4, 4, 10)
    );
    assert_eq!(
        (rooms[2].name, rooms[2].value, rooms[2].min, rooms[2].max),
        ("Max room size", 10, 10, 15)
    );

    let bsp = Algorithm::Bsp.options();
    assert_eq!(bsp.len(), 1);
    assert_eq!(
        (bsp[0].name, bsp[0].value, bsp[0].min, bsp[0].max),
        ("Max rooms", 240, 1, 350)
    );

    let interior = Algorithm::BspInterior.options();
    assert_eq!(interior.len(), 2);
    assert_eq!(
        (interior[0].name, interior[0].value, interior[0].min, interior[0].max),
        ("Min room size", 6, 6, 100)
    );
    assert_eq!(
        (interior[1].name, interior[1].value, interior[1].min, interior[1].max),
        ("Vertical split percentage", 50, 1, 100)
    );

    let ca = Algorithm::CellularAutomata.options();
    assert_eq!(ca.len(), 2);
    assert_eq!(
        (ca[0].name, ca[0].value, ca[0].min, ca[0].max),
        ("Floor percentage", 55, 1, 100)
    );
    assert_eq!(
        (ca[1].name, ca[1].value, ca[1].min, ca[1].max),
        ("Iterations", 15, 1, 100)
    );

    assert!(Algorithm::Drunkard.options().is_empty());
    assert!(Algorithm::Unselected.options().is_empty());
}
