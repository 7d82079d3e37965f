//! What saving a map and loading it again keeps.
//!
//! A document depicts a live map when it records the map's layout, its
//! tilesets under stable ids and its layers with their tiles
//! ([`WorldView::depicted_by`]).  Encoding produces such a document.  This
//! module shows that instantiating a document yields a live map that the
//! same document depicts, and that two live maps depicted by one document
//! are the same map but for the identities of their objects.

use crate::persistence::{LayerFormatView, MapFormatView, SaveId, TileInstance};
use crate::tileset::TilesetView;
use crate::world::{
    lemma_spawn_wf, lemma_with_child_wf, lemma_with_data_wf, ComponentView, Entity, Kind,
    ObjectView, WorldView,
};
use vstd::prelude::*;

verus! {

impl MapFormatView {
    /// Every tile of the document names a tileset of the document and a
    /// tile of that tileset.
    pub open spec fn resolves(self) -> bool {
        forall|l: int, k: int|
            0 <= l < self.layers.len() && 0 <= k < self.layers[l].tiles.len() ==> self.check(
                #[trigger] self.layers[l].tiles[k],
            ) is None
    }
}

impl WorldView {
    /// The placed tile `tile` refers to a live tileset and to a tile of it.
    pub open spec fn tile_resolves(self, tile: Entity) -> bool {
        let r = self.placement(tile).tile_ref;
        self.is_a(r.tileset, Kind::Tileset) && self.data(r.tileset)->Tileset_0.tiles.contains_key(
            r.tile,
        )
    }

    /// Every tile placed on a layer of the map rooted at `root` refers to a
    /// live tileset and to a tile of it.
    pub open spec fn map_consistent(self, root: Entity) -> bool {
        forall|l: int, k: int|
            0 <= l < self.layers_of(root).len() && 0 <= k < self.tiles_of(
                self.layers_of(root)[l],
            ).len() ==> self.tile_resolves(#[trigger] self.tiles_of(self.layers_of(root)[l])[k])
    }

    /// `other` has every object of this world, with the same data and the
    /// same stable id.
    pub open spec fn agrees_below(self, other: WorldView) -> bool {
        &&& self.len() <= other.len()
        &&& forall|e: Entity| #[trigger]
            self.contains(e) ==> other.data(e) == self.data(e) && other.save_id(e) == self.save_id(
                e,
            )
    }

    /// The layer `layer` of this world and the layer `other_layer` of
    /// `other` hold the same tiles in the same order: same cell, same tile
    /// id, same orientation, and tilesets with the same content.
    pub open spec fn same_tiles(self, layer: Entity, other: WorldView, other_layer: Entity) -> bool {
        let mine = self.tiles_of(layer);
        let theirs = other.tiles_of(other_layer);
        &&& mine.len() == theirs.len()
        &&& forall|k: int|
            0 <= k < mine.len() ==> {
                let p = self.placement(#[trigger] mine[k]);
                let q = other.placement(theirs[k]);
                &&& p.location == q.location
                &&& p.tile_ref.tile == q.tile_ref.tile
                &&& p.transform == q.transform
                &&& self.data(p.tile_ref.tileset) == other.data(q.tile_ref.tileset)
            }
    }

    /// The map rooted at `root` in this world and the map rooted at
    /// `other_root` in `other` are the same map but for the identities of
    /// their objects: same layout; tilesets with the same names, tiles and
    /// tile order; layers with the same names in the same order; and on
    /// each layer the same tiles in the same order.
    pub open spec fn same_map(self, root: Entity, other: WorldView, other_root: Entity) -> bool {
        let mine = self.layers_of(root);
        let theirs = other.layers_of(other_root);
        let my_sets = self.tilesets_of(root);
        let their_sets = other.tilesets_of(other_root);
        &&& self.data(root) == other.data(other_root)
        &&& mine.len() == theirs.len()
        &&& forall|l: int|
            0 <= l < mine.len() ==> self.data(#[trigger] mine[l]) == other.data(theirs[l])
                && self.same_tiles(mine[l], other, theirs[l])
        &&& forall|i: int|
            0 <= i < my_sets.len() ==> exists|j: int|
                0 <= j < their_sets.len() && self.data(#[trigger] my_sets[i]) == other.data(
                    #[trigger] their_sets[j],
                )
        &&& forall|j: int|
            0 <= j < their_sets.len() ==> exists|i: int|
                0 <= i < my_sets.len() && self.data(#[trigger] my_sets[i]) == other.data(
                    #[trigger] their_sets[j],
                )
    }

    /// What spawning a child does: one more object, which carries the data;
    /// the parent has it as its last child; nothing else changes.
    pub proof fn lemma_spawn_child(self, parent: Entity, data: ComponentView)
        requires
            self.wf(),
            self.contains(parent),
            data.wf(),
            self.len() < usize::MAX,
        ensures
            self.spawn_child(parent, data).wf(),
            self.spawn_child(parent, data).len() == self.len() + 1,
            self.agrees_below(self.spawn_child(parent, data)),
            forall|e: Entity| #[trigger]
                self.contains(e) && e != parent ==> self.spawn_child(parent, data).children(e)
                    == self.children(e),
            self.spawn_child(parent, data).children(parent) == self.children(parent).push(
                Entity { index: self.len() as usize },
            ),
            self.spawn_child(parent, data).object(Entity { index: self.len() as usize })
                == (ObjectView { children: Seq::empty(), save_id: None, data }),
    {
        let child = Entity { index: self.len() as usize };
        lemma_spawn_wf(self, data);
        lemma_with_child_wf(self.spawn(data), parent, child);
    }

    /// Picking among objects gives the same in a world that has these
    /// objects with the same data.
    pub proof fn lemma_pick_frame(self, other: WorldView, entities: Seq<Entity>, kind: Kind)
        requires
            forall|k: int|
                0 <= k < entities.len() ==> self.contains(#[trigger] entities[k]) && other.contains(
                    entities[k],
                ) && other.data(entities[k]) == self.data(entities[k]),
        ensures
            other.pick(entities, kind) == self.pick(entities, kind),
        decreases entities.len(),
    {
        if entities.len() > 0 {
            let front = entities.drop_last();
            assert forall|k: int| 0 <= k < front.len() implies self.contains(#[trigger] front[k])
                && other.contains(front[k]) && other.data(front[k]) == self.data(front[k]) by {
                assert(front[k] == entities[k]);
            }
            self.lemma_pick_frame(other, front, kind);
            assert(self.contains(entities[entities.len() - 1]));
        }
    }

    /// Picking from two sequences in a row picks from each.
    pub proof fn lemma_pick_concat(self, a: Seq<Entity>, b: Seq<Entity>, kind: Kind)
        ensures
            self.pick(a + b, kind) == self.pick(a, kind) + self.pick(b, kind),
        decreases b.len(),
    {
        if b.len() == 0 {
            assert(a + b =~= a);
            assert(self.pick(a, kind) + self.pick(b, kind) =~= self.pick(a, kind));
        } else {
            self.lemma_pick_concat(a, b.drop_last(), kind);
            assert((a + b).drop_last() =~= a + b.drop_last());
            assert((a + b).last() == b.last());
            let left = self.pick(a, kind);
            let right = self.pick(b.drop_last(), kind);
            assert((left + right).push(b.last()) =~= left + right.push(b.last()));
        }
    }

    /// Where every entity is of the asked kind, all are picked; where none
    /// is, none.
    pub proof fn lemma_pick_uniform(self, entities: Seq<Entity>, kind: Kind, all: bool)
        requires
            forall|k: int| 0 <= k < entities.len() ==> self.is_a(#[trigger] entities[k], kind) == all,
        ensures
            self.pick(entities, kind) == if all {
                entities
            } else {
                Seq::empty()
            },
        decreases entities.len(),
    {
        if entities.len() > 0 {
            let front = entities.drop_last();
            assert forall|k: int| 0 <= k < front.len() implies self.is_a(#[trigger] front[k], kind)
                == all by {
                assert(front[k] == entities[k]);
            }
            self.lemma_pick_uniform(front, kind, all);
            assert(self.is_a(entities[entities.len() - 1], kind) == all);
            if all {
                assert(front.push(entities.last()) =~= entities);
            }
        } else {
            assert(entities =~= Seq::<Entity>::empty());
        }
    }

    /// A layer is depicted alike in a world that has the layer with the
    /// same data and the same children, and the children with the same
    /// data.
    pub proof fn lemma_layer_frame(
        self,
        other: WorldView,
        layer: Entity,
        recorded: LayerFormatView,
        ids: Map<Entity, SaveId>,
    )
        requires
            self.wf(),
            self.contains(layer),
            other.contains(layer),
            other.data(layer) == self.data(layer),
            other.children(layer) == self.children(layer),
            forall|k: int|
                0 <= k < self.children(layer).len() ==> other.contains(
                    #[trigger] self.children(layer)[k],
                ) && other.data(self.children(layer)[k]) == self.data(self.children(layer)[k]),
        ensures
            other.layer_depicted(layer, recorded, ids) == self.layer_depicted(layer, recorded, ids),
    {
        let children = self.children(layer);
        assert forall|k: int| 0 <= k < children.len() implies self.contains(#[trigger] children[k])
            && other.contains(children[k]) && other.data(children[k]) == self.data(
            children[k],
        ) by {
            assert(self.contains(self.children(layer)[k]));
        }
        self.lemma_pick_frame(other, children, Kind::Tile);
        self.lemma_pick(children, Kind::Tile);
        let tiles = self.tiles_of(layer);
        assert forall|k: int| 0 <= k < tiles.len() implies other.data(#[trigger] tiles[k])
            == self.data(tiles[k]) by {
            assert(tiles.contains(tiles[k]));
            assert(children.contains(tiles[k]));
            let j = choose|j: int| 0 <= j < children.len() && children[j] == tiles[k];
            assert(other.data(children[j]) == self.data(children[j]));
        }
    }

    /// What spawning the tilesets of a document does: one new object for
    /// each, in order, all children of `root`; nothing else changes.
    pub proof fn lemma_with_tilesets(self, root: Entity, tilesets: Seq<(SaveId, TilesetView)>)
        requires
            self.wf(),
            self.contains(root),
            forall|i: int| 0 <= i < tilesets.len() ==> (#[trigger] tilesets[i]).1.wf(),
            self.len() + tilesets.len() <= usize::MAX,
        ensures
            self.with_tilesets(root, tilesets).wf(),
            self.with_tilesets(root, tilesets).len() == self.len() + tilesets.len(),
            self.agrees_below(self.with_tilesets(root, tilesets)),
            forall|e: Entity| #[trigger]
                self.contains(e) && e != root ==> self.with_tilesets(root, tilesets).children(e)
                    == self.children(e),
            self.with_tilesets(root, tilesets).children(root) == self.children(root) + Seq::new(
                tilesets.len(),
                |i: int| Entity { index: (self.len() + i) as usize },
            ),
            forall|i: int|
                0 <= i < tilesets.len() ==> (#[trigger] self.with_tilesets(
                    root,
                    tilesets,
                ).objects[self.len() + i]) == (ObjectView {
                    children: Seq::empty(),
                    save_id: None,
                    data: ComponentView::Tileset(tilesets[i].1),
                }),
        decreases tilesets.len(),
    {
        let after = self.with_tilesets(root, tilesets);
        let added = Seq::new(tilesets.len(), |i: int| Entity { index: (self.len() + i) as usize });
        if tilesets.len() == 0 {
            assert(self.children(root) + added =~= self.children(root));
        } else {
            let front = tilesets.drop_last();
            let prev = self.with_tilesets(root, front);
            let data = ComponentView::Tileset(tilesets.last().1);
            assert forall|i: int| 0 <= i < front.len() implies (#[trigger] front[i]).1.wf() by {
                assert(front[i] == tilesets[i]);
            }
            self.lemma_with_tilesets(root, front);
            assert(tilesets[tilesets.len() - 1].1.wf());
            prev.lemma_spawn_child(root, data);
            let front_added = Seq::new(
                front.len(),
                |i: int| Entity { index: (self.len() + i) as usize },
            );
            assert((self.children(root) + front_added).push(
                Entity { index: prev.len() as usize },
            ) =~= self.children(root) + added);
            assert forall|e: Entity| #[trigger] self.contains(e) implies after.data(e)
                == self.data(e) && after.save_id(e) == self.save_id(e) by {
                assert(prev.contains(e));
            }
            assert forall|e: Entity| #[trigger] self.contains(e) && e != root implies after.children(
                e,
            ) == self.children(e) by {
                assert(prev.contains(e));
            }
            assert forall|i: int| 0 <= i < tilesets.len() implies (#[trigger] after.objects[self.len()
                + i]) == (ObjectView {
                children: Seq::empty(),
                save_id: None,
                data: ComponentView::Tileset(tilesets[i].1),
            }) by {
                let e = Entity { index: (self.len() + i) as usize };
                if i < front.len() {
                    assert(prev.contains(e));
                    assert(prev.objects[self.len() + i].data == ComponentView::Tileset(front[i].1));
                    assert(after.data(e) == prev.data(e));
                    assert(after.save_id(e) == prev.save_id(e));
                    assert(e != root);
                    assert(after.children(e) == prev.children(e));
                } else {
                    assert(after.object(e) == (ObjectView {
                        children: Seq::empty(),
                        save_id: None,
                        data,
                    }));
                }
            }
        }
    }

    /// What spawning the tiles of a layer does where every tile can be
    /// instantiated: one new object for each, in order, all children of
    /// the layer; nothing else changes.
    pub proof fn lemma_with_tiles(
        self,
        layer: Entity,
        doc: MapFormatView,
        base: nat,
        tiles: Seq<TileInstance>,
    )
        requires
            self.wf(),
            self.contains(layer),
            forall|k: int| 0 <= k < tiles.len() ==> doc.check(#[trigger] tiles[k]) is None,
            self.len() + tiles.len() <= usize::MAX,
        ensures
            self.with_tiles(layer, doc, base, tiles).wf(),
            self.with_tiles(layer, doc, base, tiles).len() == self.len() + tiles.len(),
            self.agrees_below(self.with_tiles(layer, doc, base, tiles)),
            forall|e: Entity| #[trigger]
                self.contains(e) && e != layer ==> self.with_tiles(layer, doc, base, tiles).children(
                    e,
                ) == self.children(e),
            self.with_tiles(layer, doc, base, tiles).children(layer) == self.children(layer)
                + Seq::new(tiles.len(), |k: int| Entity { index: (self.len() + k) as usize }),
            forall|k: int|
                0 <= k < tiles.len() ==> (#[trigger] self.with_tiles(
                    layer,
                    doc,
                    base,
                    tiles,
                ).objects[self.len() + k]) == (ObjectView {
                    children: Seq::empty(),
                    save_id: None,
                    data: ComponentView::Tile(doc.placement(base, tiles[k])),
                }),
        decreases tiles.len(),
    {
        let after = self.with_tiles(layer, doc, base, tiles);
        let added = Seq::new(tiles.len(), |k: int| Entity { index: (self.len() + k) as usize });
        if tiles.len() == 0 {
            assert(self.children(layer) + added =~= self.children(layer));
        } else {
            let front = tiles.drop_last();
            let prev = self.with_tiles(layer, doc, base, front);
            let data = ComponentView::Tile(doc.placement(base, tiles.last()));
            assert forall|k: int| 0 <= k < front.len() implies doc.check(#[trigger] front[k])
                is None by {
                assert(front[k] == tiles[k]);
            }
            self.lemma_with_tiles(layer, doc, base, front);
            assert(doc.check(tiles[tiles.len() - 1]) is None);
            prev.lemma_spawn_child(layer, data);
            let front_added = Seq::new(
                front.len(),
                |k: int| Entity { index: (self.len() + k) as usize },
            );
            assert((self.children(layer) + front_added).push(
                Entity { index: prev.len() as usize },
            ) =~= self.children(layer) + added);
            assert forall|e: Entity| #[trigger] self.contains(e) implies after.data(e)
                == self.data(e) && after.save_id(e) == self.save_id(e) by {
                assert(prev.contains(e));
            }
            assert forall|e: Entity| #[trigger] self.contains(e) && e != layer implies after.children(
                e,
            ) == self.children(e) by {
                assert(prev.contains(e));
            }
            assert forall|k: int| 0 <= k < tiles.len() implies (#[trigger] after.objects[self.len()
                + k]) == (ObjectView {
                children: Seq::empty(),
                save_id: None,
                data: ComponentView::Tile(doc.placement(base, tiles[k])),
            }) by {
                let e = Entity { index: (self.len() + k) as usize };
                if k < front.len() {
                    assert(prev.contains(e));
                    assert(prev.objects[self.len() + k].data == ComponentView::Tile(
                        doc.placement(base, front[k]),
                    ));
                    assert(after.data(e) == prev.data(e));
                    assert(after.save_id(e) == prev.save_id(e));
                    assert(e != layer);
                    assert(after.children(e) == prev.children(e));
                } else {
                    assert(after.object(e) == (ObjectView {
                        children: Seq::empty(),
                        save_id: None,
                        data,
                    }));
                }
            }
        }
    }
}

/// Whether `ids` gives the objects from `base` on, one for each tileset of
/// `doc`, the stable ids of the document in document order.
pub open spec fn follows(ids: Map<Entity, SaveId>, doc: MapFormatView, base: nat) -> bool {
    forall|i: int|
        0 <= i < doc.tilesets.len() ==> ids.contains_key(Entity { index: (base + i) as usize })
            && ids[Entity { index: (base + i) as usize }] == (#[trigger] doc.tilesets[i]).0
}

/// Number of objects that instantiating `layers` spawns where every tile
/// can be instantiated: one for each layer and one for each tile.
pub open spec fn spawned_by(layers: Seq<LayerFormatView>) -> nat
    decreases layers.len(),
{
    if layers.len() == 0 {
        0
    } else {
        spawned_by(layers.drop_last()) + 1 + layers.last().tiles.len()
    }
}

impl WorldView {
    /// What spawning the layers of a document does where every tile can be
    /// instantiated: the layers become new children of `root`, in order,
    /// and each is depicted by its record.  Returns the new layers.
    pub proof fn lemma_with_layers(
        self,
        root: Entity,
        doc: MapFormatView,
        base: nat,
        layers: Seq<LayerFormatView>,
        ids: Map<Entity, SaveId>,
    ) -> (spawned: Seq<Entity>)
        requires
            self.wf(),
            self.contains(root),
            doc.wf(),
            forall|l: int, k: int|
                0 <= l < layers.len() && 0 <= k < layers[l].tiles.len() ==> doc.check(
                    #[trigger] layers[l].tiles[k],
                ) is None,
            base + doc.tilesets.len() <= usize::MAX,
            follows(ids, doc, base),
            self.len() + spawned_by(layers) <= usize::MAX,
        ensures
            self.with_layers(root, doc, base, layers).wf(),
            self.with_layers(root, doc, base, layers).len() == self.len() + spawned_by(layers),
            self.agrees_below(self.with_layers(root, doc, base, layers)),
            forall|e: Entity| #[trigger]
                self.contains(e) && e != root ==> self.with_layers(root, doc, base, layers).children(
                    e,
                ) == self.children(e),
            spawned.len() == layers.len(),
            self.with_layers(root, doc, base, layers).children(root) == self.children(root)
                + spawned,
            forall|l: int|
                0 <= l < layers.len() ==> {
                    let after = self.with_layers(root, doc, base, layers);
                    &&& (#[trigger] spawned[l]).index >= self.len()
                    &&& after.contains(spawned[l])
                    &&& after.layer_depicted(spawned[l], layers[l], ids)
                    &&& forall|k: int|
                        0 <= k < after.children(spawned[l]).len() ==> (#[trigger] after.children(
                            spawned[l],
                        )[k]).index >= self.len()
                },
        decreases layers.len(),
    {
        let after = self.with_layers(root, doc, base, layers);
        if layers.len() == 0 {
            let spawned = Seq::<Entity>::empty();
            assert(self.children(root) + spawned =~= self.children(root));
            spawned
        } else {
            let front = layers.drop_last();
            let last = layers.last();
            let prev = self.with_layers(root, doc, base, front);
            assert forall|l: int, k: int|
                0 <= l < front.len() && 0 <= k < front[l].tiles.len() implies doc.check(
                #[trigger] front[l].tiles[k],
            ) is None by {
                assert(front[l] == layers[l]);
            }
            let before = self.lemma_with_layers(root, doc, base, front, ids);
            let layer = Entity { index: prev.len() as usize };
            let data = ComponentView::Layer(last.name);
            let mid = prev.spawn_child(root, data);
            prev.lemma_spawn_child(root, data);
            assert forall|k: int| 0 <= k < last.tiles.len() implies doc.check(
                #[trigger] last.tiles[k],
            ) is None by {
                assert(layers[layers.len() - 1].tiles[k] == last.tiles[k]);
            }
            mid.lemma_with_tiles(layer, doc, base, last.tiles);
            assert(after == mid.with_tiles(layer, doc, base, last.tiles));
            let spawned = before.push(layer);
            let added = Seq::new(
                last.tiles.len(),
                |k: int| Entity { index: (mid.len() + k) as usize },
            );
            // the frame
            assert forall|e: Entity| #[trigger] self.contains(e) implies after.data(e)
                == self.data(e) && after.save_id(e) == self.save_id(e) by {
                assert(prev.contains(e));
                assert(mid.contains(e));
            }
            assert forall|e: Entity| #[trigger] self.contains(e) && e != root implies after.children(
                e,
            ) == self.children(e) by {
                assert(prev.contains(e));
                assert(mid.contains(e));
            }
            assert(self.len() <= prev.len());
            assert(mid.contains(root) && root != layer);
            assert(after.children(root) == mid.children(root));
            assert((self.children(root) + before).push(layer) =~= self.children(root) + spawned);
            // the new layer
            assert(after.children(layer) =~= added) by {
                assert(mid.children(layer) + added =~= added);
            }
            assert forall|k: int| 0 <= k < added.len() implies after.is_a(
                #[trigger] added[k],
                Kind::Tile,
            ) == true by {
                assert(after.objects[mid.len() + k].data == ComponentView::Tile(
                    doc.placement(base, last.tiles[k]),
                ));
            }
            after.lemma_pick_uniform(added, Kind::Tile, true);
            assert(after.tiles_of(layer) == added);
            assert(mid.contains(layer));
            assert(after.data(layer) == data);
            assert forall|k: int| 0 <= k < added.len() implies ids.contains_key(
                after.placement(#[trigger] added[k]).tile_ref.tileset,
            ) && last.tiles[k] == after.instance(added[k], ids) by {
                let tile = last.tiles[k];
                assert(after.objects[mid.len() + k].data == ComponentView::Tile(
                    doc.placement(base, tile),
                ));
                assert(doc.check(tile) is None);
                let i = doc.tileset_index(tile.tileset);
                assert(0 <= i < doc.tilesets.len() && doc.tilesets[i].0 == tile.tileset);
            }
            assert(after.layer_depicted(layer, last, ids));
            // the earlier layers
            assert forall|l: int| 0 <= l < layers.len() implies {
                &&& (#[trigger] spawned[l]).index >= self.len()
                &&& after.contains(spawned[l])
                &&& after.layer_depicted(spawned[l], layers[l], ids)
                &&& forall|k: int|
                    0 <= k < after.children(spawned[l]).len() ==> (#[trigger] after.children(
                        spawned[l],
                    )[k]).index >= self.len()
            } by {
                if l < front.len() {
                    let e = before[l];
                    assert(spawned[l] == e);
                    assert(front[l] == layers[l]);
                    assert(prev.contains(e));
                    assert(mid.contains(e));
                    assert(e != root && e != layer);
                    assert(mid.children(e) == prev.children(e));
                    assert(after.children(e) == mid.children(e));
                    assert forall|k: int| 0 <= k < prev.children(e).len() implies after.contains(
                        #[trigger] prev.children(e)[k],
                    ) && after.data(prev.children(e)[k]) == prev.data(prev.children(e)[k]) by {
                        let c = prev.children(e)[k];
                        assert(prev.contains(c));
                        assert(mid.contains(c));
                    }
                    prev.lemma_layer_frame(after, e, front[l], ids);
                } else {
                    assert(spawned[l] == layer);
                    assert(layers[l] == last);
                }
            }
            spawned
        }
    }

    /// Instantiating a document whose tiles all resolve, under a fresh
    /// root, yields a live map that the document depicts.  Returns the
    /// stable ids under which it does: those of the document.
    #[verifier::rlimit(60)]
    pub proof fn lemma_instantiated_is_depicted(self, root: Entity, doc: MapFormatView) -> (ids:
        Map<Entity, SaveId>)
        requires
            self.wf(),
            self.contains(root),
            self.children(root).len() == 0,
            doc.wf(),
            doc.resolves(),
            self.len() + doc.tilesets.len() + spawned_by(doc.layers) <= usize::MAX,
        ensures
            self.instantiated(root, doc).wf(),
            self.instantiated(root, doc).depicted_by(root, doc, ids),
    {
        let base = self.len();
        let count = doc.tilesets.len();
        let after = self.instantiated(root, doc);
        let first = self.with_tilesets(root, doc.tilesets);
        let sets = Seq::new(count, |i: int| Entity { index: (base + i) as usize });
        let ids = Map::new(
            |e: Entity| base <= e.index < base + count,
            |e: Entity| doc.tilesets[e.index - base].0,
        );
        self.lemma_with_tilesets(root, doc.tilesets);
        let layers = first.lemma_with_layers(root, doc, base, doc.layers, ids);
        let second = first.with_layers(root, doc, base, doc.layers);
        let data = ComponentView::MapRoot(doc.layout);
        lemma_with_data_wf(second, root, data);
        assert(after == second.with_data(root, data));
        let children = sets + layers;
        assert(after.children(root) =~= children) by {
            assert(self.children(root) + sets =~= sets);
        }
        assert forall|e: Entity| #[trigger] second.contains(e) && e != root implies after.data(e)
            == second.data(e) && after.children(e) == second.children(e) by {}
        assert forall|i: int| 0 <= i < sets.len() implies after.data(#[trigger] sets[i])
            == ComponentView::Tileset(doc.tilesets[i].1) && after.contains(sets[i]) by {
            assert(first.objects[base + i].data == ComponentView::Tileset(doc.tilesets[i].1));
            assert(first.contains(sets[i]));
            assert(second.data(sets[i]) == first.data(sets[i]));
        }
        assert forall|l: int| 0 <= l < layers.len() implies after.layer_depicted(
            #[trigger] layers[l],
            doc.layers[l],
            ids,
        ) by {
            let e = layers[l];
            assert(second.layer_depicted(e, doc.layers[l], ids));
            assert(e != root);
            assert forall|k: int| 0 <= k < second.children(e).len() implies after.contains(
                #[trigger] second.children(e)[k],
            ) && after.data(second.children(e)[k]) == second.data(second.children(e)[k]) by {
                let c = second.children(e)[k];
                assert(second.contains(c));
                assert(c.index >= first.len());
            }
            second.lemma_layer_frame(after, e, doc.layers[l], ids);
        }
        // what is picked under the root
        assert forall|i: int| 0 <= i < sets.len() implies after.is_a(
            #[trigger] sets[i],
            Kind::Tileset,
        ) == true && after.is_a(sets[i], Kind::Layer) == false by {
            assert(after.data(sets[i]) == ComponentView::Tileset(doc.tilesets[i].1));
        }
        assert forall|l: int| 0 <= l < layers.len() implies after.is_a(
            #[trigger] layers[l],
            Kind::Layer,
        ) == true && after.is_a(layers[l], Kind::Tileset) == false by {
            assert(after.layer_depicted(layers[l], doc.layers[l], ids));
            assert(second.contains(layers[l]));
        }
        after.lemma_pick_concat(sets, layers, Kind::Tileset);
        after.lemma_pick_concat(sets, layers, Kind::Layer);
        after.lemma_pick_uniform(sets, Kind::Tileset, true);
        after.lemma_pick_uniform(layers, Kind::Tileset, false);
        after.lemma_pick_uniform(sets, Kind::Layer, false);
        after.lemma_pick_uniform(layers, Kind::Layer, true);
        assert(after.tilesets_of(root) =~= sets) by {
            assert(sets + Seq::<Entity>::empty() =~= sets);
        }
        assert(after.layers_of(root) =~= layers) by {
            assert(Seq::<Entity>::empty() + layers =~= layers);
        }
        // the stable ids
        assert forall|e: Entity| ids.contains_key(e) <==> sets.contains(e) by {
            if ids.contains_key(e) {
                assert(sets[e.index - base] == e);
            }
            if sets.contains(e) {
                let i = choose|i: int| 0 <= i < sets.len() && sets[i] == e;
                assert(e.index == base + i);
            }
        }
        assert forall|a: Entity, b: Entity|
            ids.contains_key(a) && ids.contains_key(b) && #[trigger] ids[a]
                == #[trigger] ids[b] implies a == b by {
            let i = a.index - base;
            let j = b.index - base;
            if i < j {
                assert(doc.tilesets[i].0.0 < doc.tilesets[j].0.0);
            } else if j < i {
                assert(doc.tilesets[j].0.0 < doc.tilesets[i].0.0);
            }
        }
        assert forall|e: Entity| #[trigger] sets.contains(e) implies ids.contains_key(e)
            && doc.tilesets.contains((ids[e], after.data(e)->Tileset_0)) by {
            let i = choose|i: int| 0 <= i < sets.len() && sets[i] == e;
            assert(after.data(sets[i]) == ComponentView::Tileset(doc.tilesets[i].1));
            assert(doc.tilesets[i] == (ids[e], after.data(e)->Tileset_0));
        }
        assert forall|i: int|
            #![trigger doc.tilesets[i]]
            0 <= i < doc.tilesets.len() implies exists|e: Entity| #[trigger]
            sets.contains(e) && doc.tilesets[i] == (ids[e], after.data(e)->Tileset_0) by {
            let e = sets[i];
            assert(after.data(sets[i]) == ComponentView::Tileset(doc.tilesets[i].1));
            assert(sets.contains(e) && doc.tilesets[i] == (ids[e], after.data(e)->Tileset_0));
        }
        ids
    }

    /// A document that depicts a live map all of whose tiles refer to a
    /// tile of a live tileset has only tiles that resolve.
    pub proof fn lemma_depiction_resolves(
        self,
        root: Entity,
        doc: MapFormatView,
        ids: Map<Entity, SaveId>,
    )
        requires
            doc.wf(),
            self.depicted_by(root, doc, ids),
            self.map_consistent(root),
        ensures
            doc.resolves(),
    {
        let layers = self.layers_of(root);
        assert forall|l: int, k: int|
            0 <= l < doc.layers.len() && 0 <= k < doc.layers[l].tiles.len() implies doc.check(
            #[trigger] doc.layers[l].tiles[k],
        ) is None by {
            let tile = doc.layers[l].tiles[k];
            let layer = layers[l];
            assert(self.layer_depicted(layer, doc.layers[l], ids));
            let tiles = self.tiles_of(layer);
            let e = tiles[k];
            assert(self.tile_resolves(self.tiles_of(self.layers_of(root)[l])[k]));
            let set = self.placement(e).tile_ref.tileset;
            assert(tile == self.instance(e, ids));
            assert(ids.contains_key(set));
            assert(self.tilesets_of(root).contains(set));
            let entry = (ids[set], self.data(set)->Tileset_0);
            assert(doc.tilesets.contains(entry));
            let i = choose|i: int| 0 <= i < doc.tilesets.len() && doc.tilesets[i] == entry;
            doc.lemma_tileset_index(i);
        }
    }

    /// Two live maps that one document depicts are the same map but for the
    /// identities of their objects.
    pub proof fn lemma_depicted_alike(
        self,
        root: Entity,
        ids: Map<Entity, SaveId>,
        other: WorldView,
        other_root: Entity,
        other_ids: Map<Entity, SaveId>,
        doc: MapFormatView,
    )
        requires
            doc.wf(),
            self.depicted_by(root, doc, ids),
            other.depicted_by(other_root, doc, other_ids),
        ensures
            self.same_map(root, other, other_root),
    {
        let mine = self.layers_of(root);
        let theirs = other.layers_of(other_root);
        let my_sets = self.tilesets_of(root);
        let their_sets = other.tilesets_of(other_root);
        self.lemma_pick(self.children(root), Kind::Tileset);
        other.lemma_pick(other.children(other_root), Kind::Tileset);
        assert forall|l: int| 0 <= l < mine.len() implies self.data(#[trigger] mine[l])
            == other.data(theirs[l]) && self.same_tiles(mine[l], other, theirs[l]) by {
            assert(self.layer_depicted(mine[l], doc.layers[l], ids));
            assert(other.layer_depicted(theirs[l], doc.layers[l], other_ids));
            let a = self.tiles_of(mine[l]);
            let b = other.tiles_of(theirs[l]);
            assert forall|k: int| 0 <= k < a.len() implies {
                let p = self.placement(#[trigger] a[k]);
                let q = other.placement(b[k]);
                &&& p.location == q.location
                &&& p.tile_ref.tile == q.tile_ref.tile
                &&& p.transform == q.transform
                &&& self.data(p.tile_ref.tileset) == other.data(q.tile_ref.tileset)
            } by {
                let p = self.placement(a[k]);
                let q = other.placement(b[k]);
                let tile = doc.layers[l].tiles[k];
                assert(tile == self.instance(a[k], ids));
                assert(ids.contains_key(p.tile_ref.tileset));
                assert(other_ids.contains_key(other.placement(b[k]).tile_ref.tileset));
                assert(tile == other.instance(b[k], other_ids));
                let s = p.tile_ref.tileset;
                let t = q.tile_ref.tileset;
                assert(my_sets.contains(s) && their_sets.contains(t));
                self.lemma_same_entry(root, ids, s, other, other_root, other_ids, t, doc);
            }
        }
        assert forall|i: int| 0 <= i < my_sets.len() implies exists|j: int|
            0 <= j < their_sets.len() && self.data(#[trigger] my_sets[i]) == other.data(
                #[trigger] their_sets[j],
            ) by {
            let s = my_sets[i];
            assert(my_sets.contains(s));
            let entry = (ids[s], self.data(s)->Tileset_0);
            assert(doc.tilesets.contains(entry));
            let p = choose|p: int| 0 <= p < doc.tilesets.len() && doc.tilesets[p] == entry;
            let t = choose|t: Entity| #[trigger]
                their_sets.contains(t) && doc.tilesets[p] == (
                    other_ids[t],
                    other.data(t)->Tileset_0,
                );
            let j = choose|j: int| 0 <= j < their_sets.len() && their_sets[j] == t;
            assert(self.is_a(s, Kind::Tileset) && other.is_a(t, Kind::Tileset));
            assert(self.data(my_sets[i]) == other.data(their_sets[j]));
        }
        assert forall|j: int| 0 <= j < their_sets.len() implies exists|i: int|
            0 <= i < my_sets.len() && self.data(#[trigger] my_sets[i]) == other.data(
                #[trigger] their_sets[j],
            ) by {
            let t = their_sets[j];
            assert(their_sets.contains(t));
            let entry = (other_ids[t], other.data(t)->Tileset_0);
            assert(doc.tilesets.contains(entry));
            let p = choose|p: int| 0 <= p < doc.tilesets.len() && doc.tilesets[p] == entry;
            let s = choose|s: Entity| #[trigger]
                my_sets.contains(s) && doc.tilesets[p] == (ids[s], self.data(s)->Tileset_0);
            let i = choose|i: int| 0 <= i < my_sets.len() && my_sets[i] == s;
            assert(self.is_a(s, Kind::Tileset) && other.is_a(t, Kind::Tileset));
            assert(self.data(my_sets[i]) == other.data(their_sets[j]));
        }
    }

    /// Tilesets of two live maps that one document records under one stable
    /// id have the same content.
    pub proof fn lemma_same_entry(
        self,
        root: Entity,
        ids: Map<Entity, SaveId>,
        set: Entity,
        other: WorldView,
        other_root: Entity,
        other_ids: Map<Entity, SaveId>,
        other_set: Entity,
        doc: MapFormatView,
    )
        requires
            doc.wf(),
            self.depicted_by(root, doc, ids),
            other.depicted_by(other_root, doc, other_ids),
            self.tilesets_of(root).contains(set),
            other.tilesets_of(other_root).contains(other_set),
            ids[set] == other_ids[other_set],
        ensures
            self.data(set) == other.data(other_set),
    {
        self.lemma_pick(self.children(root), Kind::Tileset);
        other.lemma_pick(other.children(other_root), Kind::Tileset);
        let a = (ids[set], self.data(set)->Tileset_0);
        let b = (other_ids[other_set], other.data(other_set)->Tileset_0);
        assert(doc.tilesets.contains(a));
        assert(doc.tilesets.contains(b));
        let i = choose|i: int| 0 <= i < doc.tilesets.len() && doc.tilesets[i] == a;
        let j = choose|j: int| 0 <= j < doc.tilesets.len() && doc.tilesets[j] == b;
        if i < j {
            assert(doc.tilesets[i].0.0 < doc.tilesets[j].0.0);
        } else if j < i {
            assert(doc.tilesets[j].0.0 < doc.tilesets[i].0.0);
        }
        assert(self.is_a(set, Kind::Tileset) && other.is_a(other_set, Kind::Tileset));
    }

    /// Saving a map and loading it again keeps the map.
    ///
    /// Let `doc` be the document that depicts the map rooted at `root`, as
    /// encoding produces it, and let every tile of the map refer to a tile
    /// of a tileset of the map.  Then instantiating `doc` under a root
    /// without children, in any session, yields a map with the same layout,
    /// tilesets with the same names, tiles and tile order, layers with the
    /// same names in the same order, and on each layer the same tiles in
    /// the same order.  The identities and stable ids of the objects may
    /// differ.
    pub proof fn lemma_save_then_load(
        self,
        root: Entity,
        ids: Map<Entity, SaveId>,
        doc: MapFormatView,
        target: WorldView,
        target_root: Entity,
    )
        requires
            doc.wf(),
            self.depicted_by(root, doc, ids),
            self.map_consistent(root),
            target.wf(),
            target.contains(target_root),
            target.children(target_root).len() == 0,
            target.len() + doc.tilesets.len() + spawned_by(doc.layers) <= usize::MAX,
        ensures
            target.instantiated(target_root, doc).wf(),
            self.same_map(root, target.instantiated(target_root, doc), target_root),
            doc.skipped(doc.layers).len() == 0,
    {
        self.lemma_depiction_resolves(root, doc, ids);
        let loaded_ids = target.lemma_instantiated_is_depicted(target_root, doc);
        self.lemma_depicted_alike(
            root,
            ids,
            target.instantiated(target_root, doc),
            target_root,
            loaded_ids,
            doc,
        );
        doc.lemma_nothing_skipped(doc.layers);
    }
}

impl MapFormatView {
    /// Where every tile resolves, none is skipped.
    pub proof fn lemma_nothing_skipped(self, layers: Seq<LayerFormatView>)
        requires
            forall|l: int, k: int|
                0 <= l < layers.len() && 0 <= k < layers[l].tiles.len() ==> self.check(
                    #[trigger] layers[l].tiles[k],
                ) is None,
        ensures
            self.skipped(layers).len() == 0,
        decreases layers.len(),
    {
        if layers.len() > 0 {
            let front = layers.drop_last();
            assert forall|l: int, k: int|
                0 <= l < front.len() && 0 <= k < front[l].tiles.len() implies self.check(
                #[trigger] front[l].tiles[k],
            ) is None by {
                assert(front[l] == layers[l]);
            }
            self.lemma_nothing_skipped(front);
            let last = layers.last();
            assert forall|k: int| 0 <= k < last.tiles.len() implies self.check(
                #[trigger] last.tiles[k],
            ) is None by {
                assert(layers[layers.len() - 1].tiles[k] == last.tiles[k]);
            }
            self.lemma_none_skipped_in(layers.len() - 1, last.tiles);
        }
    }

    /// Where every tile of a layer resolves, none of them is skipped.
    pub proof fn lemma_none_skipped_in(self, layer: int, tiles: Seq<TileInstance>)
        requires
            forall|k: int| 0 <= k < tiles.len() ==> self.check(#[trigger] tiles[k]) is None,
        ensures
            self.skipped_in(layer, tiles).len() == 0,
        decreases tiles.len(),
    {
        if tiles.len() > 0 {
            let front = tiles.drop_last();
            assert forall|k: int| 0 <= k < front.len() implies self.check(#[trigger] front[k])
                is None by {
                assert(front[k] == tiles[k]);
            }
            self.lemma_none_skipped_in(layer, front);
            assert(self.check(tiles[tiles.len() - 1]) is None);
        }
    }
}

} // verus!
