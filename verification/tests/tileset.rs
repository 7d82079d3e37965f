use hex_sandbox::tileset::{
    Tile, TileRotation, TileTransform, Tileset, TilesetError, TilesetFormat, Transform,
    TILESET_VERSION,
};

#[test]
fn add_tile_gives_dense_ids_and_names_tiles_after_the_file() {
    let mut set = Tileset::new("props");
    assert_eq!(set.name(), "props");
    assert_eq!(set.len(), 0);
    assert_eq!(set.add_tile("assets/tiles/grass.glb".to_string()), 0);
    assert_eq!(set.add_tile("rock.tar.gz".to_string()), 1);
    assert_eq!(set.add_named_tile("a name".to_string(), "x.glb".to_string()), 2);
    assert_eq!(set.tile_order(), &vec![0, 1, 2]);
    assert_eq!(set.len(), 3);
    let first = set.get(0).unwrap();
    assert_eq!(
        first,
        &Tile {
            id: 0,
            name: "grass".to_string(),
            path: "assets/tiles/grass.glb".to_string(),
            transform: Transform::identity(),
        }
    );
    assert_eq!(set.get(1).unwrap().name, "rock.tar");
    assert_eq!(set.get(2).unwrap().name, "a name");
    assert!(set.contains(2));
    assert!(!set.contains(3));
    assert!(set.get(3).is_none());
}

#[test]
fn a_path_without_a_file_name_gives_an_empty_name() {
    let mut set = Tileset::new("props");
    let id = set.add_tile("..".to_string());
    assert_eq!(set.get(id).unwrap().name, "");
    assert_eq!(set.get(id).unwrap().path, "..");
}

#[test]
fn the_identity_transform_is_zero_translation_unit_rotation_unit_scale() {
    let t = Transform::identity();
    assert_eq!(f32::from_bits(t.translation_x), 0.0);
    assert_eq!(f32::from_bits(t.translation_y), 0.0);
    assert_eq!(f32::from_bits(t.translation_z), 0.0);
    assert_eq!(f32::from_bits(t.rotation_x), 0.0);
    assert_eq!(f32::from_bits(t.rotation_y), 0.0);
    assert_eq!(f32::from_bits(t.rotation_z), 0.0);
    assert_eq!(f32::from_bits(t.rotation_w), 1.0);
    assert_eq!(f32::from_bits(t.scale_x), 1.0);
    assert_eq!(f32::from_bits(t.scale_y), 1.0);
    assert_eq!(f32::from_bits(t.scale_z), 1.0);
}

#[test]
fn set_transform_replaces_the_transform_of_one_tile() {
    let mut set = Tileset::new("props");
    set.add_tile("a.glb".to_string());
    set.add_tile("b.glb".to_string());
    let moved = Transform {
        translation_y: 1.5f32.to_bits(),
        ..Transform::identity()
    };
    assert!(set.set_transform(1, moved));
    assert!(!set.set_transform(2, moved));
    assert_eq!(set.get(1).unwrap().transform, moved);
    assert_eq!(set.get(1).unwrap().name, "b");
    assert_eq!(set.get(0).unwrap().transform, Transform::identity());
    assert_eq!(set.tile_order(), &vec![0, 1]);
}

fn five() -> Tileset {
    let mut set = Tileset::new("five");
    for name in ["a", "b", "c", "d", "e"] {
        set.add_named_tile(name.to_string(), format!("{}.glb", name));
    }
    set
}

#[test]
fn reorder_moves_the_first_tile_to_the_end() {
    let mut set = Tileset::new("three");
    set.add_tile("a.glb".to_string());
    set.add_tile("b.glb".to_string());
    set.add_tile("c.glb".to_string());
    set.reorder(&vec![0], 3);
    assert_eq!(set.tile_order(), &vec![1, 2, 0]);
    assert_eq!(set.get(0).unwrap().name, "a");
    // the next tile still gets the next id
    assert_eq!(set.add_tile("d.glb".to_string()), 3);
    assert_eq!(set.tile_order(), &vec![1, 2, 0, 3]);
}

#[test]
fn reorder_puts_the_block_in_front_of_the_target() {
    let mut set = five();
    set.reorder(&vec![0], 2);
    assert_eq!(set.tile_order(), &vec![1, 0, 2, 3, 4]);

    let mut set = five();
    set.reorder(&vec![1, 3], 0);
    assert_eq!(set.tile_order(), &vec![1, 3, 0, 2, 4]);

    let mut set = five();
    set.reorder(&vec![1, 3], 3);
    assert_eq!(set.tile_order(), &vec![0, 2, 1, 3, 4]);

    let mut set = five();
    set.reorder(&vec![4, 0], 2);
    assert_eq!(set.tile_order(), &vec![1, 4, 0, 2, 3]);

    let mut set = five();
    set.reorder(&vec![2], 2);
    assert_eq!(set.tile_order(), &vec![0, 1, 2, 3, 4]);
}

#[test]
fn reorder_passes_over_unknown_and_repeated_ids() {
    let mut set = five();
    set.reorder(&vec![3, 9, 3, 1], 5);
    assert_eq!(set.tile_order(), &vec![0, 2, 4, 3, 1]);

    let mut set = five();
    set.reorder(&vec![2], 77);
    assert_eq!(set.tile_order(), &vec![0, 1, 3, 4, 2]);

    let mut set = five();
    set.reorder(&vec![], 1);
    assert_eq!(set.tile_order(), &vec![0, 1, 2, 3, 4]);

    let mut set = Tileset::new("empty");
    set.reorder(&vec![1], 0);
    assert_eq!(set.tile_order(), &Vec::<usize>::new());
}

#[test]
fn documents_list_tiles_in_display_order() {
    let mut set = Tileset::new("three");
    set.add_tile("a.glb".to_string());
    set.add_tile("b.glb".to_string());
    set.add_tile("c.glb".to_string());
    set.reorder(&vec![0], 3);
    let doc = set.to_document();
    assert_eq!(doc.version, TILESET_VERSION);
    assert_eq!(doc.version, 1);
    assert_eq!(doc.name, "three");
    let ids: Vec<usize> = doc.tiles.iter().map(|t| t.id).collect();
    assert_eq!(ids, vec![1, 2, 0]);
    let back = Tileset::from_document(&doc).unwrap();
    assert_eq!(back.name(), "three");
    assert_eq!(back.tile_order(), &vec![1, 2, 0]);
    for id in 0..3 {
        assert_eq!(back.get(id), set.get(id));
    }
    assert_eq!(back.to_document(), doc);
    let copy = set.clone();
    assert_eq!(copy.to_document(), doc);
}

#[test]
fn a_loaded_tileset_gives_new_tiles_unused_ids() {
    let tile = |id: usize| Tile {
        id,
        name: format!("tile {}", id),
        path: format!("{}.glb", id),
        transform: Transform::identity(),
    };
    let doc = TilesetFormat {
        version: 1,
        name: "sparse".to_string(),
        tiles: vec![tile(7), tile(2), tile(4)],
    };
    let mut set = Tileset::from_document(&doc).unwrap();
    assert_eq!(set.tile_order(), &vec![7, 2, 4]);
    assert_eq!(set.add_tile("new.glb".to_string()), 8);
    assert_eq!(set.tile_order(), &vec![7, 2, 4, 8]);
}

#[test]
fn documents_of_another_version_are_refused() {
    let doc = TilesetFormat {
        version: 999,
        name: "later".to_string(),
        tiles: vec![],
    };
    assert_eq!(
        Tileset::from_document(&doc).err(),
        Some(TilesetError::UnsupportedVersion(999))
    );
    let doc = TilesetFormat {
        version: 0,
        name: "earlier".to_string(),
        tiles: vec![],
    };
    assert_eq!(
        Tileset::from_document(&doc).err(),
        Some(TilesetError::UnsupportedVersion(0))
    );
}

#[test]
fn documents_with_a_repeated_id_are_refused() {
    let tile = |id: usize| Tile {
        id,
        name: String::new(),
        path: String::new(),
        transform: Transform::identity(),
    };
    let doc = TilesetFormat {
        version: 1,
        name: "twice".to_string(),
        tiles: vec![tile(1), tile(5), tile(3), tile(5), tile(1)],
    };
    assert_eq!(
        Tileset::from_document(&doc).err(),
        Some(TilesetError::DuplicateTileId(5))
    );
}

#[test]
fn rotations_step_through_six_positions() {
    let clockwise = [
        TileRotation::Zero,
        TileRotation::Clockwise60,
        TileRotation::Clockwise120,
        TileRotation::Clockwise180,
        TileRotation::CounterClockwise120,
        TileRotation::CounterClockwise60,
    ];
    for i in 0..6 {
        assert_eq!(clockwise[i].clockwise(), clockwise[(i + 1) % 6]);
        assert_eq!(clockwise[(i + 1) % 6].counter_clockwise(), clockwise[i]);
        assert_eq!(clockwise[i].clockwise().counter_clockwise(), clockwise[i]);
        let mut r = clockwise[i];
        for _ in 0..6 {
            r = r.clockwise();
        }
        assert_eq!(r, clockwise[i]);
    }
    assert_eq!(TileRotation::default(), TileRotation::Zero);
    assert_eq!(TileTransform::default().rotation, TileRotation::Zero);
}
