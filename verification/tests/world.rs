use hex_sandbox::map::{HexMap, Layer, Location};
use hex_sandbox::persistence::MapError;
use hex_sandbox::tileset::Tileset;
use hex_sandbox::world::{Component, Entity, Kind, World};

#[test]
fn spawned_objects_are_numbered_in_order() {
    let mut world = World::new();
    assert_eq!(world.len(), 0);
    let a = world.spawn(Component::Empty);
    let b = world.spawn_child(a, Component::Layer(Layer::new("l".into()))).unwrap();
    let c = world.spawn_child(a, Component::Tileset(Tileset::new("t"))).unwrap();
    assert_eq!((a.index, b.index, c.index), (0, 1, 2));
    assert_eq!(world.len(), 3);
    assert!(world.contains(c));
    assert!(!world.contains(Entity { index: 3 }));
    assert_eq!(world.children(a), Some(&vec![b, c]));
    assert_eq!(world.children(b), Some(&vec![]));
    assert_eq!(world.children(Entity { index: 3 }), None);
    assert!(world.data(Entity { index: 3 }).is_none());
    assert_eq!(world.data(b).unwrap().kind(), Kind::Layer);
    assert_eq!(world.data(c).unwrap().kind(), Kind::Tileset);
    assert_eq!(world.data(a).unwrap().kind(), Kind::Empty);
    assert_eq!(world.children_of_kind(a, Kind::Tileset), vec![c]);
    assert_eq!(world.children_of_kind(a, Kind::Layer), vec![b]);
    assert_eq!(world.children_of_kind(a, Kind::Tile), vec![]);
    assert_eq!(world.children_of_kind(Entity { index: 3 }, Kind::Layer), vec![]);
}

#[test]
fn unknown_objects_are_reported() {
    let mut world = World::new();
    let a = world.spawn(Component::Empty);
    let missing = Entity { index: 8 };
    assert_eq!(
        world.spawn_child(missing, Component::Empty).err(),
        Some(MapError::UnknownObject(missing))
    );
    assert_eq!(
        world.insert(missing, Component::Empty),
        Err(MapError::UnknownObject(missing))
    );
    assert_eq!(
        world.add_child(missing, a),
        Err(MapError::UnknownObject(missing))
    );
    assert_eq!(
        world.add_child(a, missing),
        Err(MapError::UnknownObject(missing))
    );
    assert_eq!(world.len(), 1);
    assert_eq!(world.children(a), Some(&vec![]));
}

#[test]
fn insert_replaces_the_data_and_add_child_appends() {
    let mut world = World::new();
    let a = world.spawn(Component::Empty);
    let b = world.spawn(Component::Empty);
    assert_eq!(world.insert(a, Component::Layer(Layer::new("now a layer".into()))), Ok(()));
    assert_eq!(world.add_child(a, b), Ok(()));
    assert_eq!(world.children(a), Some(&vec![b]));
    match world.data(a) {
        Some(Component::Layer(l)) => assert_eq!(l.name, "now a layer"),
        other => panic!("expected a layer, found {:?}", other),
    }
}

#[test]
fn get_map_finds_the_single_map() {
    let mut world = World::new();
    assert_eq!(world.get_map().err(), Some(MapError::NoSingleMap));
    world.spawn(Component::Empty);
    let root = world.spawn(Component::MapRoot(HexMap::new()));
    world.spawn(Component::Layer(Layer::new("l".into())));
    let (found, map) = world.get_map().unwrap();
    assert_eq!(found, root);
    assert_eq!(map.layout.origin, hexx::HexLayout::default().origin);
    world.spawn(Component::MapRoot(HexMap::new()));
    assert_eq!(world.get_map().err(), Some(MapError::NoSingleMap));
}

#[test]
fn locations_are_pairs_of_axial_coordinates() {
    assert_eq!(Location::new(3, -4), Location { x: 3, y: -4 });
    assert_eq!(Location::from((3, -4)), Location { x: 3, y: -4 });
    assert_eq!(Location::default(), Location { x: 0, y: 0 });
}

#[test]
fn a_new_map_has_the_default_layout() {
    let map = HexMap::new();
    let default = hexx::HexLayout::default();
    assert_eq!(map.layout.orientation, default.orientation);
    assert_eq!(map.layout.origin, default.origin);
    assert_eq!(map.layout.scale, default.scale);
    let copy = map.clone();
    assert_eq!(copy.layout.scale, default.scale);
    let custom = HexMap::with_layout(hexx::HexLayout::flat().with_hex_size(2.0));
    assert_eq!(custom.clone().layout.scale, hexx::Vec2::new(2.0, 2.0));
    assert_eq!(custom.layout.orientation, hexx::HexOrientation::Flat);
}

#[test]
fn to_world_then_snap_returns_the_location() {
    let map = HexMap::with_layout(hexx::HexLayout::pointy().with_hex_size(1.25));
    let mut state: u64 = 0x2545_f491_4f6c_dd1d;
    for _ in 0..1000 {
        state = state
            .wrapping_mul(6364136223846793005)
            .wrapping_add(1442695040888963407);
        let x = ((state >> 33) % 2001) as i32 - 1000;
        state = state
            .wrapping_mul(6364136223846793005)
            .wrapping_add(1442695040888963407);
        let y = ((state >> 33) % 2001) as i32 - 1000;
        let location = Location::new(x, y);
        let position = map.layout.hex_to_world_pos(hexx::Hex::new(location.x, location.y));
        let snapped = map.layout.world_pos_to_hex(position);
        assert_eq!(Location::new(snapped.x, snapped.y), location);
        assert_eq!(map.layout.hex_to_world_pos(snapped), position);
    }
}
