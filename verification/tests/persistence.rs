use hex_sandbox::map::{HexMap, Layer, Location};
use hex_sandbox::persistence::{
    LayerFormat, MapError, MapFormat, SaveId, SkippedTile, SpawnError, TileInstance,
    MAP_FORMAT_VERSION,
};
use hex_sandbox::tileset::{TileRotation, TileTransform, Tileset};
use hex_sandbox::world::{Component, Entity, Kind, TilePlacement, TileRef, World};

fn spawn_tile(
    world: &mut World,
    layer: Entity,
    tileset: Entity,
    tile: usize,
    x: i32,
    y: i32,
    rotation: TileRotation,
) -> Entity {
    world
        .spawn_child(
            layer,
            Component::Tile(TilePlacement {
                location: Location { x, y },
                tile_ref: TileRef { tileset, tile },
                transform: TileTransform { rotation },
            }),
        )
        .expect("layer to exist")
}

fn spawn_map(world: &mut World) -> Entity {
    let root = world.spawn(Component::MapRoot(HexMap::new()));
    let tileset_a = world
        .spawn_child(root, Component::Tileset(Tileset::new("tileset a")))
        .expect("root to exist");
    let tileset_b = world
        .spawn_child(root, Component::Tileset(Tileset::new("tileset b")))
        .expect("root to exist");
    let layer = world
        .spawn_child(root, Component::Layer(Layer::new("layer 0".into())))
        .expect("root to exist");
    spawn_tile(world, layer, tileset_a, 0, 0, 0, TileRotation::Zero);
    spawn_tile(world, layer, tileset_b, 1, 2, 3, TileRotation::Zero);
    root
}

#[test]
fn world_assign_save_ids() {
    let mut world = World::new();
    let entity = world.spawn(Component::Empty);
    let entity_map = world
        .assign_save_ids(&vec![entity])
        .expect("assign_save_ids() to return Ok");
    assert_eq!(entity_map.get(entity), Some(SaveId(0)));
    assert_eq!(world.save_id(entity), Some(SaveId(0)));
}

#[test]
fn world_assign_save_ids_already_assigned() {
    let mut world = World::new();
    let entity = world.spawn(Component::Empty);
    world
        .set_save_id(entity, SaveId(13))
        .expect("a fresh object to take an id");
    let entity_map = world
        .assign_save_ids(&vec![entity])
        .expect("assign_save_ids() to return Ok");
    assert_eq!(entity_map.get(entity), Some(SaveId(13)));
    assert_eq!(world.save_id(entity), Some(SaveId(13)));
}

#[test]
fn map_format_try_new() {
    let mut world = World::new();
    let root = spawn_map(&mut world);
    let map_format =
        MapFormat::try_new(&mut world, root).expect("try_new() to create a MapFormat");
    assert_eq!(map_format.tileset_count(), 2);
    assert_eq!(map_format.layers().len(), 1);
}

#[test]
fn map_format_try_new_empty_map() {
    let mut world = World::new();
    let root = world.spawn(Component::MapRoot(HexMap::default()));
    let map_format =
        MapFormat::try_new(&mut world, root).expect("try_new() to create a MapFormat");
    assert_eq!(map_format.tileset_count(), 0);
    assert_eq!(map_format.layers().len(), 0);
}

#[test]
fn save_id_serde() {
    let id = SaveId(231);
    let str = ron::to_string(&id.to_u64()).expect("serialize successfully");
    assert_eq!(str, "231");
    let value = SaveId::from_u64(ron::from_str::<u64>(&str).expect("deserialize successfully"));
    assert_eq!(value, id);
}

#[test]
fn next_id_is_zero_without_ids() {
    let mut world = World::new();
    world.spawn(Component::Empty);
    world.spawn(Component::Empty);
    assert_eq!(world.save_id_next(), SaveId(0));
    assert_eq!(World::new().save_id_next(), SaveId(0));
}

#[test]
fn next_id_is_one_above_the_largest() {
    let mut world = World::new();
    let a = world.spawn(Component::Empty);
    let b = world.spawn(Component::Empty);
    let c = world.spawn(Component::Empty);
    world.set_save_id(a, SaveId(3)).unwrap();
    world.set_save_id(b, SaveId(7)).unwrap();
    assert_eq!(world.save_id_next(), SaveId(8));
    let ids = world.assign_save_ids(&vec![c]).unwrap();
    assert_eq!(ids.get(c), Some(SaveId(8)));
    assert_eq!(world.save_id_next(), SaveId(9));
}

#[test]
fn assign_twice_gives_the_same_ids() {
    let mut world = World::new();
    let a = world.spawn(Component::Empty);
    let b = world.spawn(Component::Empty);
    let c = world.spawn(Component::Empty);
    world.set_save_id(b, SaveId(5)).unwrap();
    let batch = vec![a, b, c, a];
    let first = world.assign_save_ids(&batch).unwrap();
    let second = world.assign_save_ids(&batch).unwrap();
    assert_eq!(first.get(a), Some(SaveId(6)));
    assert_eq!(first.get(b), Some(SaveId(5)));
    assert_eq!(first.get(c), Some(SaveId(7)));
    for e in [a, b, c] {
        assert_eq!(first.get(e), second.get(e));
        assert_eq!(world.save_id(e), first.get(e));
    }
    assert!(first.contains(a));
    assert!(!first.contains(Entity { index: 17 }));
    assert_eq!(first.get(Entity { index: 17 }), None);
}

#[test]
fn assign_stops_at_an_unknown_object() {
    let mut world = World::new();
    let a = world.spawn(Component::Empty);
    let ghost = Entity { index: 99 };
    let b = world.spawn(Component::Empty);
    let r = world.assign_save_ids(&vec![a, ghost, b]);
    assert_eq!(r.err(), Some(MapError::UnknownObject(ghost)));
    assert_eq!(world.save_id(a), Some(SaveId(0)));
    assert_eq!(world.save_id(b), None);
}

#[test]
fn a_stable_id_is_given_once() {
    let mut world = World::new();
    let a = world.spawn(Component::Empty);
    let b = world.spawn(Component::Empty);
    assert_eq!(world.set_save_id(a, SaveId(4)), Ok(()));
    assert_eq!(
        world.set_save_id(a, SaveId(5)),
        Err(MapError::SaveIdAlreadyAssigned(a))
    );
    assert_eq!(
        world.set_save_id(b, SaveId(4)),
        Err(MapError::SaveIdInUse(SaveId(4)))
    );
    assert_eq!(
        world.set_save_id(Entity { index: 2 }, SaveId(9)),
        Err(MapError::UnknownObject(Entity { index: 2 }))
    );
    assert_eq!(world.save_id(a), Some(SaveId(4)));
    assert_eq!(world.save_id(b), None);
}

#[test]
fn encode_refuses_what_is_not_a_map() {
    let mut world = World::new();
    let layer = world.spawn(Component::Layer(Layer::new("lonely".into())));
    let tileset = world
        .spawn_child(layer, Component::Tileset(Tileset::new("set")))
        .unwrap();
    let r = MapFormat::try_new(&mut world, layer);
    assert_eq!(r.err(), Some(MapError::NotAMap(layer)));
    assert_eq!(world.save_id(tileset), None);
    let missing = Entity { index: 40 };
    assert_eq!(
        MapFormat::try_new(&mut world, missing).err(),
        Some(MapError::NotAMap(missing))
    );
}

#[test]
fn encode_reports_a_dangling_tileset() {
    let mut world = World::new();
    let stray = world.spawn(Component::Tileset(Tileset::new("not of this map")));
    let root = world.spawn(Component::MapRoot(HexMap::new()));
    let own = world
        .spawn_child(root, Component::Tileset(Tileset::new("own")))
        .unwrap();
    let layer = world
        .spawn_child(root, Component::Layer(Layer::new("l".into())))
        .unwrap();
    spawn_tile(&mut world, layer, own, 0, 1, 1, TileRotation::Zero);
    spawn_tile(&mut world, layer, stray, 3, 2, 2, TileRotation::Clockwise60);
    let r = MapFormat::try_new(&mut world, root);
    assert_eq!(
        r.err(),
        Some(MapError::DanglingTilesetRef(TileRef {
            tileset: stray,
            tile: 3
        }))
    );
    // the ids were assigned before the layers were walked
    assert_eq!(world.save_id(own), Some(SaveId(0)));
    assert_eq!(world.save_id(stray), None);
}

#[test]
fn encode_records_tilesets_in_the_order_of_their_ids() {
    let mut world = World::new();
    let root = world.spawn(Component::MapRoot(HexMap::new()));
    let a = world
        .spawn_child(root, Component::Tileset(Tileset::new("a")))
        .unwrap();
    let b = world
        .spawn_child(root, Component::Tileset(Tileset::new("b")))
        .unwrap();
    let c = world
        .spawn_child(root, Component::Tileset(Tileset::new("c")))
        .unwrap();
    world.set_save_id(a, SaveId(7)).unwrap();
    world.set_save_id(b, SaveId(3)).unwrap();
    let layer = world
        .spawn_child(root, Component::Layer(Layer::new("ground".into())))
        .unwrap();
    spawn_tile(&mut world, layer, c, 0, -4, 9, TileRotation::Clockwise180);
    // a child that is no tile is passed over
    world.spawn_child(layer, Component::Empty).unwrap();
    spawn_tile(&mut world, layer, a, 2, 5, 5, TileRotation::CounterClockwise60);
    let doc = MapFormat::try_new(&mut world, root).unwrap();
    assert_eq!(doc.version(), MAP_FORMAT_VERSION);
    assert_eq!(world.save_id(c), Some(SaveId(8)));
    assert_eq!(doc.tileset_count(), 3);
    let names: Vec<(SaveId, String)> = (0..3)
        .map(|i| {
            let (id, set) = doc.tileset_at(i);
            (id, set.name().clone())
        })
        .collect();
    assert_eq!(
        names,
        vec![
            (SaveId(3), "b".to_string()),
            (SaveId(7), "a".to_string()),
            (SaveId(8), "c".to_string())
        ]
    );
    assert!(doc.has_tileset(SaveId(7)));
    assert!(!doc.has_tileset(SaveId(0)));
    let layers = doc.layers();
    assert_eq!(layers.len(), 1);
    assert_eq!(layers[0].name, "ground");
    assert_eq!(
        layers[0].tiles,
        vec![
            TileInstance {
                location: Location { x: -4, y: 9 },
                tileset: SaveId(8),
                tile_id: 0,
                rotation: TileRotation::Clockwise180
            },
            TileInstance {
                location: Location { x: 5, y: 5 },
                tileset: SaveId(7),
                tile_id: 2,
                rotation: TileRotation::CounterClockwise60
            },
        ]
    );
}

#[test]
fn encode_keeps_the_layout_of_the_root() {
    let layout = hexx::HexLayout::flat()
        .with_hex_size(3.5)
        .with_origin(hexx::Vec2::new(-2.0, 8.25));
    let mut world = World::new();
    let root = world.spawn(Component::MapRoot(HexMap::with_layout(layout.clone())));
    let doc = MapFormat::try_new(&mut world, root).unwrap();
    assert_eq!(doc.layout().orientation, layout.orientation);
    assert_eq!(doc.layout().origin, layout.origin);
    assert_eq!(doc.layout().scale, layout.scale);
    let mut target = World::new();
    let target_root = target.spawn(Component::Empty);
    doc.try_spawn(&mut target, target_root).unwrap();
    match target.data(target_root) {
        Some(Component::MapRoot(map)) => {
            assert_eq!(map.layout.orientation, layout.orientation);
            assert_eq!(map.layout.origin, layout.origin);
            assert_eq!(map.layout.scale, layout.scale);
        }
        other => panic!("expected a map root, found {:?}", other),
    }
}

fn two_tile_set(name: &str) -> Tileset {
    let mut set = Tileset::new(name);
    set.add_tile("models/grass.glb".to_string());
    set.add_tile("models/rock.glb".to_string());
    set
}

#[test]
fn version_mismatch_is_refused_and_nothing_is_spawned() {
    let mut doc = MapFormat::new(999, hexx::HexLayout::default());
    doc.insert_tileset(SaveId(0), two_tile_set("set")).unwrap();
    doc.push_layer(LayerFormat::new("layer".to_string()));
    let mut world = World::new();
    let root = world.spawn(Component::Empty);
    let r = doc.try_spawn(&mut world, root);
    assert_eq!(
        r.err(),
        Some(MapError::UnsupportedVersion {
            found: 999,
            supported: 1
        })
    );
    assert_eq!(world.len(), 1);
    assert_eq!(world.children(root).unwrap().len(), 0);
    assert!(matches!(world.data(root), Some(Component::Empty)));
}

#[test]
fn decode_under_an_unknown_root_is_refused() {
    let doc = MapFormat::new(MAP_FORMAT_VERSION, hexx::HexLayout::default());
    let mut world = World::new();
    let missing = Entity { index: 5 };
    assert_eq!(
        doc.try_spawn(&mut world, missing).err(),
        Some(MapError::UnknownObject(missing))
    );
    assert_eq!(world.len(), 0);
}

#[test]
fn a_corrupt_tile_is_skipped_and_the_rest_is_loaded() {
    let tile = |tileset: usize, tile_id: usize, x: i32| TileInstance {
        location: Location { x, y: 0 },
        tileset: SaveId(tileset),
        tile_id,
        rotation: TileRotation::Clockwise120,
    };
    let mut doc = MapFormat::new(MAP_FORMAT_VERSION, hexx::HexLayout::default());
    doc.insert_tileset(SaveId(4), two_tile_set("set")).unwrap();
    let mut layer = LayerFormat::new("layer".to_string());
    layer.tiles = vec![tile(4, 0, 1), tile(9, 0, 2), tile(4, 1, 3)];
    doc.push_layer(layer);
    let mut world = World::new();
    let root = world.spawn(Component::Empty);
    let skipped = doc.try_spawn(&mut world, root).unwrap();
    assert_eq!(
        skipped,
        vec![SkippedTile {
            layer: 0,
            index: 1,
            instance: tile(9, 0, 2),
            error: SpawnError::UnresolvedTilesetRef(SaveId(9)),
        }]
    );
    let layers = world.children_of_kind(root, Kind::Layer);
    assert_eq!(layers.len(), 1);
    let tiles = world.children_of_kind(layers[0], Kind::Tile);
    assert_eq!(tiles.len(), 2);
    let sets = world.children_of_kind(root, Kind::Tileset);
    assert_eq!(sets.len(), 1);
    let placed: Vec<TilePlacement> = tiles
        .iter()
        .map(|e| match world.data(*e) {
            Some(Component::Tile(p)) => *p,
            other => panic!("expected a tile, found {:?}", other),
        })
        .collect();
    assert_eq!(
        placed,
        vec![
            TilePlacement {
                location: Location { x: 1, y: 0 },
                tile_ref: TileRef {
                    tileset: sets[0],
                    tile: 0
                },
                transform: TileTransform {
                    rotation: TileRotation::Clockwise120
                },
            },
            TilePlacement {
                location: Location { x: 3, y: 0 },
                tile_ref: TileRef {
                    tileset: sets[0],
                    tile: 1
                },
                transform: TileTransform {
                    rotation: TileRotation::Clockwise120
                },
            },
        ]
    );
}

#[test]
fn a_tile_with_an_unknown_tile_id_is_skipped() {
    let mut doc = MapFormat::new(MAP_FORMAT_VERSION, hexx::HexLayout::default());
    doc.insert_tileset(SaveId(0), two_tile_set("set")).unwrap();
    let mut layer = LayerFormat::new("layer".to_string());
    let bad = TileInstance {
        location: Location { x: 0, y: 0 },
        tileset: SaveId(0),
        tile_id: 2,
        rotation: TileRotation::Zero,
    };
    layer.tiles = vec![bad];
    doc.push_layer(layer);
    let mut world = World::new();
    let root = world.spawn(Component::Empty);
    let skipped = doc.try_spawn(&mut world, root).unwrap();
    assert_eq!(
        skipped,
        vec![SkippedTile {
            layer: 0,
            index: 0,
            instance: bad,
            error: SpawnError::UnresolvedTileId {
                tileset: SaveId(0),
                tile_id: 2
            },
        }]
    );
    let layers = world.children_of_kind(root, Kind::Layer);
    assert_eq!(world.children_of_kind(layers[0], Kind::Tile).len(), 0);
}

#[test]
fn a_document_holds_one_tileset_under_an_id() {
    let mut doc = MapFormat::new(MAP_FORMAT_VERSION, hexx::HexLayout::default());
    assert_eq!(doc.insert_tileset(SaveId(2), Tileset::new("first")), Ok(()));
    assert_eq!(
        doc.insert_tileset(SaveId(2), Tileset::new("second")),
        Err(MapError::SaveIdInUse(SaveId(2)))
    );
    assert_eq!(doc.insert_tileset(SaveId(1), Tileset::new("third")), Ok(()));
    assert_eq!(doc.tileset_count(), 2);
    assert_eq!(doc.tileset_at(0).0, SaveId(1));
    assert_eq!(doc.tileset_at(0).1.name(), "third");
    assert_eq!(doc.tileset_at(1).1.name(), "first");
}

/// The layers of a live map as names with their tiles, each tile with the
/// name of its tileset in place of the tileset's identity.
fn describe(world: &World, root: Entity) -> Vec<(String, Vec<(Location, String, usize, TileRotation)>)> {
    world
        .children_of_kind(root, Kind::Layer)
        .iter()
        .map(|layer| {
            let name = match world.data(*layer) {
                Some(Component::Layer(l)) => l.name.clone(),
                other => panic!("expected a layer, found {:?}", other),
            };
            let tiles = world
                .children_of_kind(*layer, Kind::Tile)
                .iter()
                .map(|tile| match world.data(*tile) {
                    Some(Component::Tile(p)) => {
                        let set = match world.data(p.tile_ref.tileset) {
                            Some(Component::Tileset(t)) => t.name().clone(),
                            other => panic!("expected a tileset, found {:?}", other),
                        };
                        (p.location, set, p.tile_ref.tile, p.transform.rotation)
                    }
                    other => panic!("expected a tile, found {:?}", other),
                })
                .collect();
            (name, tiles)
        })
        .collect()
}

fn tilesets(world: &World, root: Entity) -> Vec<(String, Vec<usize>, Vec<String>)> {
    let mut sets: Vec<(String, Vec<usize>, Vec<String>)> = world
        .children_of_kind(root, Kind::Tileset)
        .iter()
        .map(|e| match world.data(*e) {
            Some(Component::Tileset(t)) => (
                t.name().clone(),
                t.tile_order().clone(),
                t.tile_order()
                    .iter()
                    .map(|id| t.get(*id).unwrap().name.clone())
                    .collect(),
            ),
            other => panic!("expected a tileset, found {:?}", other),
        })
        .collect();
    sets.sort();
    sets
}

#[test]
fn save_then_load_keeps_the_map() {
    let mut world = World::new();
    world.spawn(Component::Empty);
    let root = world.spawn(Component::MapRoot(HexMap::new()));
    let mut forest = two_tile_set("forest");
    forest.add_tile("models/tree.glb".to_string());
    forest.reorder(&vec![0], 3);
    let forest = world.spawn_child(root, Component::Tileset(forest)).unwrap();
    let ground = world
        .spawn_child(root, Component::Layer(Layer::new("ground".into())))
        .unwrap();
    let town = world
        .spawn_child(root, Component::Tileset(two_tile_set("town")))
        .unwrap();
    let top = world
        .spawn_child(root, Component::Layer(Layer::new("top".into())))
        .unwrap();
    world
        .spawn_child(root, Component::Layer(Layer::new("empty".into())))
        .unwrap();
    world.set_save_id(forest, SaveId(12)).unwrap();
    world.set_save_id(town, SaveId(2)).unwrap();
    spawn_tile(&mut world, ground, forest, 2, 0, 0, TileRotation::Zero);
    spawn_tile(&mut world, ground, town, 1, 1, -1, TileRotation::Clockwise60);
    spawn_tile(&mut world, ground, forest, 0, 0, 0, TileRotation::CounterClockwise120);
    spawn_tile(&mut world, top, town, 0, 7, 7, TileRotation::Clockwise180);

    let doc = MapFormat::try_new(&mut world, root).unwrap();
    let mut loaded = World::new();
    let loaded_root = loaded.spawn(Component::Empty);
    let skipped = doc.try_spawn(&mut loaded, loaded_root).unwrap();

    assert_eq!(skipped, vec![]);
    assert_eq!(describe(&loaded, loaded_root), describe(&world, root));
    assert_eq!(tilesets(&loaded, loaded_root), tilesets(&world, root));
    assert_eq!(
        tilesets(&loaded, loaded_root),
        vec![
            (
                "forest".to_string(),
                vec![1, 2, 0],
                vec!["rock".to_string(), "tree".to_string(), "grass".to_string()]
            ),
            (
                "town".to_string(),
                vec![0, 1],
                vec!["grass".to_string(), "rock".to_string()]
            ),
        ]
    );
    assert_eq!(describe(&loaded, loaded_root).len(), 3);
    // a second save of the loaded map records the same layers
    let again = MapFormat::try_new(&mut loaded, loaded_root).unwrap();
    assert_eq!(again.layers().len(), 3);
    assert_eq!(again.tileset_count(), 2);
    assert_eq!(again.tileset_at(0).0, SaveId(0));
    assert_eq!(again.tileset_at(0).1.name(), "town");
    assert_eq!(again.tileset_at(1).1.name(), "forest");
}
