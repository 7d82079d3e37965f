use hex_sandbox::map::Location;
use hex_sandbox::persistence::{
    LayerFormat, MapError, MapFormat, SaveId, SpawnError, TileInstance, MAP_FORMAT_VERSION,
};
use hex_sandbox::tasks::{map_importer, next_action, tileset_importer, Import, ImportError, TaskAction};
use hex_sandbox::tileset::{Tile, TileRotation, Tileset, TilesetError, TilesetFormat, Transform};
use hex_sandbox::world::{Component, Entity, Kind, World};

#[test]
fn a_poll_decides_the_next_action() {
    assert!(matches!(next_action::<u8>(None), TaskAction::Wait));
    assert!(matches!(next_action(Some(Ok(7u8))), TaskAction::Apply(7)));
    match next_action::<u8>(Some(Err("disk full".to_string()))) {
        TaskAction::Discard(message) => assert_eq!(message, "disk full"),
        other => panic!("expected a discard, found {:?}", other),
    }
}

#[test]
fn a_pending_or_failed_map_import_changes_nothing() {
    let mut world = World::new();
    let root = world.spawn(Component::Empty);
    assert!(matches!(map_importer(&mut world, root, None), Import::Pending));
    match map_importer(&mut world, root, Some(Err("failed to read file".to_string()))) {
        Import::Failed(ImportError::Task(message)) => assert_eq!(message, "failed to read file"),
        other => panic!("expected a failure, found {:?}", other),
    }
    let later = MapFormat::new(999, hexx::HexLayout::default());
    match map_importer(&mut world, root, Some(Ok(later))) {
        Import::Failed(ImportError::Instantiate(e)) => assert_eq!(
            e,
            MapError::UnsupportedVersion {
                found: 999,
                supported: 1
            }
        ),
        other => panic!("expected a failure, found {:?}", other),
    }
    assert_eq!(world.len(), 1);
    assert!(matches!(world.data(root), Some(Component::Empty)));
}

#[test]
fn a_finished_map_import_instantiates_the_document() {
    let mut set = Tileset::new("set");
    set.add_tile("a.glb".to_string());
    let mut doc = MapFormat::new(MAP_FORMAT_VERSION, hexx::HexLayout::default());
    doc.insert_tileset(SaveId(1), set).unwrap();
    let mut layer = LayerFormat::new("layer".to_string());
    let tile = |tileset: usize| TileInstance {
        location: Location { x: 1, y: 2 },
        tileset: SaveId(tileset),
        tile_id: 0,
        rotation: TileRotation::Zero,
    };
    layer.tiles = vec![tile(1), tile(3)];
    doc.push_layer(layer);
    let mut world = World::new();
    let root = world.spawn(Component::Empty);
    match map_importer(&mut world, root, Some(Ok(doc))) {
        Import::Loaded(skipped) => {
            assert_eq!(skipped.len(), 1);
            assert_eq!(skipped[0].error, SpawnError::UnresolvedTilesetRef(SaveId(3)));
        }
        other => panic!("expected a loaded map, found {:?}", other),
    }
    assert!(matches!(world.data(root), Some(Component::MapRoot(_))));
    assert_eq!(world.children_of_kind(root, Kind::Tileset).len(), 1);
    let layers = world.children_of_kind(root, Kind::Layer);
    assert_eq!(layers.len(), 1);
    assert_eq!(world.children_of_kind(layers[0], Kind::Tile).len(), 1);
    assert_eq!(world.len(), 4);
}

#[test]
fn a_tileset_import_attaches_the_tileset() {
    let tile = |id: usize| Tile {
        id,
        name: format!("tile {}", id),
        path: format!("{}.glb", id),
        transform: Transform::identity(),
    };
    let doc = |version: usize, ids: Vec<usize>| TilesetFormat {
        version,
        name: "imported".to_string(),
        tiles: ids.into_iter().map(tile).collect(),
    };
    let mut world = World::new();
    let placeholder = world.spawn(Component::Empty);
    assert!(matches!(
        tileset_importer(&mut world, placeholder, None),
        Import::Pending
    ));
    match tileset_importer(&mut world, placeholder, Some(Err("failed to open file".to_string()))) {
        Import::Failed(ImportError::Task(message)) => assert_eq!(message, "failed to open file"),
        other => panic!("expected a failure, found {:?}", other),
    }
    assert!(matches!(
        tileset_importer(&mut world, placeholder, Some(Ok(doc(2, vec![0])))),
        Import::Failed(ImportError::Tileset(TilesetError::UnsupportedVersion(2)))
    ));
    assert!(matches!(
        tileset_importer(&mut world, placeholder, Some(Ok(doc(1, vec![4, 4])))),
        Import::Failed(ImportError::Tileset(TilesetError::DuplicateTileId(4)))
    ));
    let missing = Entity { index: 9 };
    assert!(matches!(
        tileset_importer(&mut world, missing, Some(Ok(doc(1, vec![0])))),
        Import::Failed(ImportError::Instantiate(MapError::UnknownObject(e))) if e == missing
    ));
    assert!(matches!(world.data(placeholder), Some(Component::Empty)));
    assert!(matches!(
        tileset_importer(&mut world, placeholder, Some(Ok(doc(1, vec![2, 0])))),
        Import::Loaded(())
    ));
    match world.data(placeholder) {
        Some(Component::Tileset(set)) => {
            assert_eq!(set.name(), "imported");
            assert_eq!(set.tile_order(), &vec![2, 0]);
            assert_eq!(set.get(2).unwrap().name, "tile 2");
        }
        other => panic!("expected a tileset, found {:?}", other),
    }
}
