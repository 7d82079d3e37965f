//! Stable ids, the map document, and the two directions between a live map
//! and its document.

use crate::map::{HexMap, Layer, Location};
use crate::tileset::{TileId, TileRotation, TileTransform, Tileset, TilesetView};
use crate::world::{
    Component, ComponentView, Entity, Kind, TilePlacement, TileRef, World, WorldView,
};
use hexx::HexLayout;
use std::collections::HashMap;
use vstd::prelude::*;

verus! {

broadcast use vstd::std_specs::hash::group_hash_axioms;

/// The one map document version this library reads and writes.
pub const MAP_FORMAT_VERSION: usize = 1;

/// A stable id: the name under which a document refers to a live object,
/// kept with the object from one save to the next.
#[derive(Clone, Copy, Debug, PartialEq, Eq, PartialOrd, Ord, Hash, Structural)]
pub struct SaveId(pub usize);

impl Default for SaveId {
    /// The first stable id of a session.
    fn default() -> (id: SaveId)
        ensures
            id.0 == 0,
    {
        SaveId(0)
    }
}

impl SaveId {
    /// The id as the plain number that a file holds.
    pub fn to_u64(self) -> (n: u64)
        ensures
            n == self.0,
    {
        self.0 as u64
    }

    /// The id that a file holds as the plain number `n`.  A number beyond
    /// the range of ids of this machine is cut to that range.
    pub fn from_u64(n: u64) -> (id: SaveId)
        ensures
            n <= usize::MAX ==> id.0 == n,
    {
        SaveId(n as usize)
    }
}

/// Why an operation on a session or a map document fails.
#[derive(Clone, Copy, Debug, PartialEq, Eq, Structural)]
pub enum MapError {
    /// The object is not part of the session.
    UnknownObject(Entity),
    /// The object does not carry the data of a map root.
    NotAMap(Entity),
    /// A placed tile refers to a tileset that is not a tileset of its map.
    DanglingTilesetRef(TileRef),
    /// The document's version is not the supported one.
    UnsupportedVersion { found: usize, supported: usize },
    /// The stable id already belongs to another object.
    SaveIdInUse(SaveId),
    /// The object already has a stable id, which never changes.
    SaveIdAlreadyAssigned(Entity),
    /// The session does not hold exactly one map.
    NoSingleMap,
}

/// One placed tile as a document records it: where it stands, which tileset
/// of the document it is taken from, which tile of that tileset it shows,
/// and how it is turned.
#[derive(Clone, Copy, Debug, PartialEq, Eq, Hash, Structural)]
pub struct TileInstance {
    pub location: Location,
    pub tileset: SaveId,
    pub tile_id: TileId,
    pub rotation: TileRotation,
}

/// One layer as a document records it: its name and its tiles in order.
#[derive(Debug, PartialEq, Eq)]
pub struct LayerFormat {
    pub name: String,
    pub tiles: Vec<TileInstance>,
}

/// What a [`LayerFormat`] holds, as mathematical values.
pub struct LayerFormatView {
    pub name: Seq<char>,
    pub tiles: Seq<TileInstance>,
}

impl View for LayerFormat {
    type V = LayerFormatView;

    open spec fn view(&self) -> LayerFormatView {
        LayerFormatView { name: self.name@, tiles: self.tiles@ }
    }
}

impl LayerFormat {
    /// A layer called `name` without tiles.
    pub fn new(name: String) -> (l: LayerFormat)
        ensures
            l@ == (LayerFormatView { name: name@, tiles: Seq::empty() }),
    {
        LayerFormat { name, tiles: Vec::new() }
    }
}

/// Why one tile of a document is left out when the document is
/// instantiated.
#[derive(Clone, Copy, Debug, PartialEq, Eq, Structural)]
pub enum SpawnError {
    /// The document has no tileset under the id that the tile names.
    UnresolvedTilesetRef(SaveId),
    /// The tileset that the tile names has no tile with the id that the
    /// tile names.
    UnresolvedTileId { tileset: SaveId, tile_id: TileId },
}

/// A tile that was left out when a document was instantiated: the index of
/// its layer, its index within the layer, the tile and the reason.
#[derive(Clone, Copy, Debug, PartialEq, Eq, Structural)]
pub struct SkippedTile {
    pub layer: usize,
    pub index: usize,
    pub instance: TileInstance,
    pub error: SpawnError,
}

/// What a [`MapFormat`] holds, as mathematical values.
pub struct MapFormatView {
    pub version: usize,
    pub layout: HexLayout,
    pub tilesets: Seq<(SaveId, TilesetView)>,
    pub layers: Seq<LayerFormatView>,
}

/// Number of entries of `tilesets` whose id is less than `id`.
pub open spec fn rank(tilesets: Seq<(SaveId, TilesetView)>, id: SaveId) -> nat
    decreases tilesets.len(),
{
    if tilesets.len() == 0 {
        0
    } else {
        rank(tilesets.drop_last(), id) + if tilesets.last().0.0 < id.0 {
            1nat
        } else {
            0nat
        }
    }
}

/// Whether the ids of `tilesets` increase strictly from each entry to the
/// next.
pub open spec fn increasing(tilesets: Seq<(SaveId, TilesetView)>) -> bool {
    forall|i: int, j: int|
        0 <= i < j < tilesets.len() ==> (#[trigger] tilesets[i]).0.0 < (#[trigger] tilesets[j]).0.0
}

/// In a sequence with increasing ids, the entries with an id less than `id`
/// are exactly the first [`rank`] ones.
pub proof fn lemma_rank(tilesets: Seq<(SaveId, TilesetView)>, id: SaveId)
    requires
        increasing(tilesets),
    ensures
        rank(tilesets, id) <= tilesets.len(),
        forall|i: int| 0 <= i < rank(tilesets, id) ==> (#[trigger] tilesets[i]).0.0 < id.0,
        forall|i: int|
            rank(tilesets, id) <= i < tilesets.len() ==> (#[trigger] tilesets[i]).0.0 >= id.0,
    decreases tilesets.len(),
{
    if tilesets.len() > 0 {
        let front = tilesets.drop_last();
        assert(increasing(front)) by {
            assert forall|i: int, j: int| 0 <= i < j < front.len() implies (#[trigger] front[i]).0.0
                < (#[trigger] front[j]).0.0 by {
                assert(tilesets[i].0.0 < tilesets[j].0.0);
            }
        }
        lemma_rank(front, id);
        let r = rank(front, id);
        let n = tilesets.len() - 1;
        if tilesets.last().0.0 < id.0 {
            assert(r == n) by {
                if r < n {
                    assert(front[r as int].0.0 >= id.0);
                    assert(tilesets[r as int].0.0 < tilesets[n].0.0);
                }
            }
            assert forall|i: int| 0 <= i < r + 1 implies (#[trigger] tilesets[i]).0.0 < id.0 by {
                if i < n {
                    assert(front[i].0.0 < id.0);
                }
            }
        } else {
            assert forall|i: int| 0 <= i < r implies (#[trigger] tilesets[i]).0.0 < id.0 by {
                assert(front[i].0.0 < id.0);
            }
            assert forall|i: int| r <= i < tilesets.len() implies (#[trigger] tilesets[i]).0.0
                >= id.0 by {
                if i < n {
                    assert(front[i].0.0 >= id.0);
                }
            }
        }
    }
}

impl MapFormatView {
    /// The tilesets stand in the order of their ids, no id occurs twice,
    /// and every tileset is well formed.
    pub open spec fn wf(self) -> bool {
        &&& increasing(self.tilesets)
        &&& forall|i: int| 0 <= i < self.tilesets.len() ==> (#[trigger] self.tilesets[i]).1.wf()
    }

    /// Whether the document has a tileset under `id`.
    pub open spec fn has_tileset(self, id: SaveId) -> bool {
        exists|i: int| 0 <= i < self.tilesets.len() && (#[trigger] self.tilesets[i]).0 == id
    }

    /// Index of the tileset under `id`, for an id that the document has.
    pub open spec fn tileset_index(self, id: SaveId) -> int {
        choose|i: int| 0 <= i < self.tilesets.len() && (#[trigger] self.tilesets[i]).0 == id
    }

    /// In a well-formed document an id names one tileset.
    pub proof fn lemma_tileset_index(self, i: int)
        requires
            self.wf(),
            0 <= i < self.tilesets.len(),
        ensures
            self.has_tileset(self.tilesets[i].0),
            self.tileset_index(self.tilesets[i].0) == i,
    {
        let id = self.tilesets[i].0;
        let j = self.tileset_index(id);
        assert(self.tilesets[j].0 == id);
        if j < i {
            assert(self.tilesets[j].0.0 < self.tilesets[i].0.0);
        } else if i < j {
            assert(self.tilesets[i].0.0 < self.tilesets[j].0.0);
        }
    }

    /// The document with the tileset `tileset` entered under `id`, which the
    /// document does not have yet, at the place that the order of ids gives
    /// it.
    pub open spec fn with_tileset(self, id: SaveId, tileset: TilesetView) -> MapFormatView {
        MapFormatView {
            tilesets: self.tilesets.insert(rank(self.tilesets, id) as int, (id, tileset)),
            ..self
        }
    }

    /// The document with `layer` appended.
    pub open spec fn with_layer(self, layer: LayerFormatView) -> MapFormatView {
        MapFormatView { layers: self.layers.push(layer), ..self }
    }

    /// Entering a well-formed tileset under a new id keeps a document well
    /// formed, and the document then holds what it held and the new entry.
    pub proof fn lemma_with_tileset(self, id: SaveId, tileset: TilesetView)
        requires
            self.wf(),
            !self.has_tileset(id),
            tileset.wf(),
        ensures
            self.with_tileset(id, tileset).wf(),
            forall|entry: (SaveId, TilesetView)| #[trigger]
                self.with_tileset(id, tileset).tilesets.contains(entry) <==> self.tilesets.contains(
                    entry,
                ) || entry == (id, tileset),
    {
        let old = self.tilesets;
        let r = rank(old, id) as int;
        let new = self.with_tileset(id, tileset).tilesets;
        lemma_rank(old, id);
        assert forall|i: int| r <= i < old.len() implies (#[trigger] old[i]).0.0 > id.0 by {
            assert(old[i].0 != id);
        }
        assert forall|i: int, j: int| 0 <= i < j < new.len() implies (#[trigger] new[i]).0.0 < (
        #[trigger] new[j]).0.0 by {
            if j < r {
                assert(old[i].0.0 < old[j].0.0);
            } else if j == r {
                assert(old[i].0.0 < id.0);
            } else if i < r {
                assert(old[i].0.0 < id.0);
                assert(old[j - 1].0.0 > id.0);
            } else if i == r {
                assert(old[j - 1].0.0 > id.0);
            } else {
                assert(old[i - 1].0.0 < old[j - 1].0.0);
            }
        }
        assert forall|i: int| 0 <= i < new.len() implies (#[trigger] new[i]).1.wf() by {
            if i < r {
                assert(old[i].1.wf());
            } else if i > r {
                assert(old[i - 1].1.wf());
            }
        }
        assert forall|entry: (SaveId, TilesetView)| #[trigger]
            new.contains(entry) <==> old.contains(entry) || entry == (id, tileset) by {
            if new.contains(entry) {
                let i = choose|i: int| 0 <= i < new.len() && new[i] == entry;
                if i < r {
                    assert(old[i] == entry);
                } else if i > r {
                    assert(old[i - 1] == entry);
                }
            }
            if old.contains(entry) {
                let i = choose|i: int| 0 <= i < old.len() && old[i] == entry;
                if i < r {
                    assert(new[i] == entry);
                } else {
                    assert(new[i + 1] == entry);
                }
            }
            if entry == (id, tileset) {
                assert(new[r] == entry);
            }
        }
    }
}

/// A map as it is written to a file: the version, the grid layout, the
/// tilesets by stable id in the order of the ids, and the layers with their
/// tiles.  A document holds no live identities.
#[derive(Debug)]
pub struct MapFormat {
    version: usize,
    layout: HexLayout,
    tilesets: Vec<(SaveId, Tileset)>,
    layers: Vec<LayerFormat>,
}

impl View for MapFormat {
    type V = MapFormatView;

    closed spec fn view(&self) -> MapFormatView {
        MapFormatView {
            version: self.version,
            layout: self.layout,
            tilesets: Seq::new(
                self.tilesets@.len(),
                |i: int| (self.tilesets@[i].0, self.tilesets@[i].1@),
            ),
            layers: Seq::new(self.layers@.len(), |i: int| self.layers@[i]@),
        }
    }
}

impl MapFormat {
    /// The representation invariant: the view is well formed, and so is
    /// every stored tileset.
    pub closed spec fn wf(&self) -> bool {
        &&& self@.wf()
        &&& forall|i: int| 0 <= i < self.tilesets@.len() ==> (#[trigger] self.tilesets@[i]).1.wf()
    }

    /// A well-formed document has a well-formed view.
    pub proof fn lemma_wf_view(&self)
        requires
            self.wf(),
        ensures
            self@.wf(),
    {
    }

    /// A document of the given version and layout without tilesets and
    /// layers.
    pub fn new(version: usize, layout: HexLayout) -> (doc: MapFormat)
        ensures
            doc.wf(),
            doc@ == (MapFormatView {
                version,
                layout,
                tilesets: Seq::empty(),
                layers: Seq::empty(),
            }),
    {
        let doc = MapFormat { version, layout, tilesets: Vec::new(), layers: Vec::new() };
        assert(doc@.tilesets =~= Seq::empty());
        assert(doc@.layers =~= Seq::empty());
        doc
    }

    /// The document's version.
    pub fn version(&self) -> (v: usize)
        ensures
            v == self@.version,
    {
        self.version
    }

    /// The grid layout.
    pub fn layout(&self) -> (l: &HexLayout)
        ensures
            *l == self@.layout,
    {
        &self.layout
    }

    /// Number of tilesets.
    pub fn tileset_count(&self) -> (n: usize)
        ensures
            n == self@.tilesets.len(),
    {
        self.tilesets.len()
    }

    /// The `i`-th tileset in the order of the stable ids, with its id.
    pub fn tileset_at(&self, i: usize) -> (entry: (SaveId, &Tileset))
        requires
            self.wf(),
            i < self@.tilesets.len(),
        ensures
            entry.0 == self@.tilesets[i as int].0,
            entry.1@ == self@.tilesets[i as int].1,
            entry.1.wf(),
    {
        (self.tilesets[i].0, &self.tilesets[i].1)
    }

    /// The layers in order.
    pub fn layers(&self) -> (layers: &Vec<LayerFormat>)
        ensures
            layers@.len() == self@.layers.len(),
            forall|i: int| 0 <= i < layers@.len() ==> (#[trigger] layers@[i])@ == self@.layers[i],
    {
        &self.layers
    }

    /// Enters `tileset` under `id` at the place that the order of ids gives
    /// it.  Fails with [`MapError::SaveIdInUse`], and changes nothing, where
    /// the document already has a tileset under `id`.
    pub fn insert_tileset(&mut self, id: SaveId, tileset: Tileset) -> (r: Result<(), MapError>)
        requires
            old(self).wf(),
            tileset.wf(),
        ensures
            final(self).wf(),
            match r {
                Ok(_) => !old(self)@.has_tileset(id) && final(self)@ == old(self)@.with_tileset(
                    id,
                    tileset@,
                ),
                Err(e) => old(self)@.has_tileset(id) && e == MapError::SaveIdInUse(id)
                    && final(self)@ == old(self)@,
            },
    {
        let n = self.tilesets.len();
        let mut pos: usize = 0;
        while pos < n && self.tilesets[pos].0.0 < id.0
            invariant
                *self == *old(self),
                n == self.tilesets@.len(),
                pos <= n,
                forall|i: int| 0 <= i < pos ==> (#[trigger] self.tilesets@[i]).0.0 < id.0,
            decreases n - pos,
        {
            pos += 1;
        }
        let ghost before = self@;
        proof {
            lemma_rank(before.tilesets, id);
            let r = rank(before.tilesets, id);
            if pos < r {
                assert(before.tilesets[pos as int].0.0 < id.0);
            }
            if r < pos {
                assert(before.tilesets[r as int].0.0 >= id.0);
                assert(self.tilesets@[r as int].0.0 < id.0);
            }
            assert(pos == r);
        }
        if pos < n && self.tilesets[pos].0.0 == id.0 {
            assert(before.tilesets[pos as int].0 == id);
            return Err(MapError::SaveIdInUse(id));
        }
        proof {
            if before.has_tileset(id) {
                let i = before.tileset_index(id);
                assert(before.tilesets[i].0 == id);
                if i < pos {
                    assert(self.tilesets@[i].0.0 < id.0);
                } else if i > pos {
                    assert(before.tilesets[pos as int].0.0 < before.tilesets[i].0.0);
                }
            }
            tileset.lemma_wf_view();
            before.lemma_with_tileset(id, tileset@);
        }
        self.tilesets.insert(pos, (id, tileset));
        proof {
            assert(self@.tilesets =~= before.with_tileset(id, tileset@).tilesets);
            assert(self@.layers =~= before.layers);
        }
        Ok(())
    }

    /// Appends `layer` to the layers.
    pub fn push_layer(&mut self, layer: LayerFormat)
        requires
            old(self).wf(),
        ensures
            final(self).wf(),
            final(self)@ == old(self)@.with_layer(layer@),
    {
        let ghost before = self@;
        self.layers.push(layer);
        proof {
            assert(self@.tilesets =~= before.tilesets);
            assert(self@.layers =~= before.with_layer(layer@).layers);
        }
    }

    /// Whether the document has a tileset under `id`.
    pub fn has_tileset(&self, id: SaveId) -> (b: bool)
        requires
            self.wf(),
        ensures
            b == self@.has_tileset(id),
    {
        let n = self.tilesets.len();
        let mut i: usize = 0;
        while i < n
            invariant
                n == self.tilesets@.len(),
                i <= n,
                forall|k: int| 0 <= k < i ==> (#[trigger] self@.tilesets[k]).0 != id,
            decreases n - i,
        {
            if self.tilesets[i].0.0 == id.0 {
                assert(self@.tilesets[i as int].0 == id);
                return true;
            }
            i += 1;
        }
        false
    }
}

impl WorldView {
    /// The tilesets of the map rooted at `root`: the children of `root` that
    /// carry a tileset, in their order.
    pub open spec fn tilesets_of(self, root: Entity) -> Seq<Entity> {
        self.pick(self.children(root), Kind::Tileset)
    }

    /// The layers of the map rooted at `root`: the children of `root` that
    /// carry a layer, in their order.
    pub open spec fn layers_of(self, root: Entity) -> Seq<Entity> {
        self.pick(self.children(root), Kind::Layer)
    }

    /// The tiles placed on `layer`: the children of `layer` that carry a
    /// placed tile, in their order.
    pub open spec fn tiles_of(self, layer: Entity) -> Seq<Entity> {
        self.pick(self.children(layer), Kind::Tile)
    }

    /// The placement that the placed tile `e` carries.
    pub open spec fn placement(self, e: Entity) -> TilePlacement {
        self.data(e)->Tile_0
    }

    /// The placed tile `e` as a document records it when tilesets go by the
    /// stable ids `ids`.
    pub open spec fn instance(self, e: Entity, ids: Map<Entity, SaveId>) -> TileInstance {
        let p = self.placement(e);
        TileInstance {
            location: p.location,
            tileset: ids[p.tile_ref.tileset],
            tile_id: p.tile_ref.tile,
            rotation: p.transform.rotation,
        }
    }

    /// The reference of the first of `tiles` whose tileset has no id in
    /// `ids`, if there is such a tile.
    pub open spec fn first_dangling(self, tiles: Seq<Entity>, ids: Map<Entity, SaveId>) -> Option<
        TileRef,
    >
        decreases tiles.len(),
    {
        if tiles.len() == 0 {
            None
        } else {
            match self.first_dangling(tiles.drop_last(), ids) {
                Some(r) => Some(r),
                None => if ids.contains_key(self.placement(tiles.last()).tile_ref.tileset) {
                    None
                } else {
                    Some(self.placement(tiles.last()).tile_ref)
                },
            }
        }
    }

    /// The reference of the first tile on the first of `layers` that has a
    /// tile whose tileset has no id in `ids`, if there is such a tile.
    pub open spec fn first_dangling_under(
        self,
        layers: Seq<Entity>,
        ids: Map<Entity, SaveId>,
    ) -> Option<TileRef>
        decreases layers.len(),
    {
        if layers.len() == 0 {
            None
        } else {
            match self.first_dangling_under(layers.drop_last(), ids) {
                Some(r) => Some(r),
                None => self.first_dangling(self.tiles_of(layers.last()), ids),
            }
        }
    }

    /// Whether `entries` are the tilesets `tilesets` under their ids: every
    /// tileset is entered under its id, and every entry is one of the
    /// tilesets with its id.
    pub open spec fn tilesets_depicted(
        self,
        tilesets: Seq<Entity>,
        entries: Seq<(SaveId, TilesetView)>,
        ids: Map<Entity, SaveId>,
    ) -> bool {
        &&& forall|e: Entity| #[trigger]
            tilesets.contains(e) ==> ids.contains_key(e) && entries.contains(
                (ids[e], self.data(e)->Tileset_0),
            )
        &&& forall|i: int|
            #![trigger entries[i]]
            0 <= i < entries.len() ==> exists|e: Entity| #[trigger]
                tilesets.contains(e) && entries[i] == (ids[e], self.data(e)->Tileset_0)
    }

    /// Whether `layer` records the live layer `e`: its name and its tiles in
    /// order, each with the stable id of its tileset.
    pub open spec fn layer_depicted(
        self,
        e: Entity,
        layer: LayerFormatView,
        ids: Map<Entity, SaveId>,
    ) -> bool {
        let tiles = self.tiles_of(e);
        &&& self.data(e) == ComponentView::Layer(layer.name)
        &&& layer.tiles.len() == tiles.len()
        &&& forall|k: int|
            0 <= k < tiles.len() ==> ids.contains_key(
                self.placement(#[trigger] tiles[k]).tile_ref.tileset,
            ) && layer.tiles[k] == self.instance(tiles[k], ids)
    }

    /// Whether `layers` record the live layers `entities`, one for one and
    /// in order.
    pub open spec fn layers_depicted(
        self,
        entities: Seq<Entity>,
        layers: Seq<LayerFormatView>,
        ids: Map<Entity, SaveId>,
    ) -> bool {
        &&& layers.len() == entities.len()
        &&& forall|l: int|
            0 <= l < entities.len() ==> self.layer_depicted(#[trigger] entities[l], layers[l], ids)
    }

    /// Whether `doc` records the map rooted at `root` when the map's
    /// tilesets go by the stable ids `ids`: the layout of the root, the
    /// tilesets under their ids, and the layers with their tiles.  `ids`
    /// names the tilesets of the map, and no two of them alike.
    pub open spec fn depicted_by(
        self,
        root: Entity,
        doc: MapFormatView,
        ids: Map<Entity, SaveId>,
    ) -> bool {
        &&& self.contains(root)
        &&& self.data(root) == ComponentView::MapRoot(doc.layout)
        &&& forall|e: Entity| ids.contains_key(e) <==> self.tilesets_of(root).contains(e)
        &&& forall|a: Entity, b: Entity|
            ids.contains_key(a) && ids.contains_key(b) && #[trigger] ids[a] == #[trigger] ids[b]
                ==> a == b
        &&& self.tilesets_depicted(self.tilesets_of(root), doc.tilesets, ids)
        &&& self.layers_depicted(self.layers_of(root), doc.layers, ids)
    }

    /// What [`WorldView::pick`] picks are objects of the asked kind among
    /// the entities it was given, and all of those.
    pub proof fn lemma_pick(self, entities: Seq<Entity>, kind: Kind)
        ensures
            self.pick(entities, kind).len() <= entities.len(),
            forall|e: Entity| #[trigger]
                self.pick(entities, kind).contains(e) <==> entities.contains(e) && self.is_a(
                    e,
                    kind,
                ),
        decreases entities.len(),
    {
        let out = self.pick(entities, kind);
        if entities.len() > 0 {
            let front = entities.drop_last();
            let rest = self.pick(front, kind);
            let last = entities.last();
            self.lemma_pick(front, kind);
            assert forall|e: Entity| #[trigger]
                out.contains(e) <==> entities.contains(e) && self.is_a(e, kind) by {
                if out.contains(e) {
                    let i = choose|i: int| 0 <= i < out.len() && out[i] == e;
                    if i < rest.len() {
                        assert(rest[i] == e);
                        assert(rest.contains(e));
                        let k = choose|k: int| 0 <= k < front.len() && front[k] == e;
                        assert(entities[k] == e);
                    } else {
                        assert(entities[entities.len() - 1] == e);
                    }
                }
                if entities.contains(e) && self.is_a(e, kind) {
                    let k = choose|k: int| 0 <= k < entities.len() && entities[k] == e;
                    if k < front.len() {
                        assert(front[k] == e);
                        assert(front.contains(e));
                        assert(rest.contains(e));
                        let i = choose|i: int| 0 <= i < rest.len() && rest[i] == e;
                        assert(out[i] == e);
                    } else {
                        assert(out[rest.len() as int] == e);
                    }
                }
            }
        }
    }

    /// Worlds that agree on the data of their objects pick the same
    /// entities.
    pub proof fn lemma_pick_agrees(self, other: WorldView, entities: Seq<Entity>, kind: Kind)
        requires
            self.len() == other.len(),
            forall|e: Entity| #[trigger] self.contains(e) ==> self.data(e) == other.data(e),
        ensures
            self.pick(entities, kind) == other.pick(entities, kind),
        decreases entities.len(),
    {
        if entities.len() > 0 {
            self.lemma_pick_agrees(other, entities.drop_last(), kind);
            let last = entities.last();
            assert(self.is_a(last, kind) == other.is_a(last, kind)) by {
                assert(self.contains(last) == other.contains(last));
            }
        }
    }

    /// Where every one of `entities` is an object, none is unknown.
    pub proof fn lemma_all_known(self, entities: Seq<Entity>)
        requires
            forall|e: Entity| entities.contains(e) ==> #[trigger] self.contains(e),
        ensures
            self.first_unknown(entities) is None,
        decreases entities.len(),
    {
        if entities.len() > 0 {
            let front = entities.drop_last();
            assert forall|e: Entity| front.contains(e) implies #[trigger] self.contains(e) by {
                let k = choose|k: int| 0 <= k < front.len() && front[k] == e;
                assert(entities[k] == e);
            }
            self.lemma_all_known(front);
            assert(entities[entities.len() - 1] == entities.last());
        }
    }

    /// A dangling reference found among the first `k` tiles is the first
    /// dangling reference among all of them.
    pub proof fn lemma_first_dangling_prefix(
        self,
        tiles: Seq<Entity>,
        ids: Map<Entity, SaveId>,
        k: int,
    )
        requires
            0 <= k <= tiles.len(),
            self.first_dangling(tiles.take(k), ids) is Some,
        ensures
            self.first_dangling(tiles, ids) == self.first_dangling(tiles.take(k), ids),
        decreases tiles.len() - k,
    {
        if k < tiles.len() {
            assert(tiles.take(k + 1).drop_last() =~= tiles.take(k));
            self.lemma_first_dangling_prefix(tiles, ids, k + 1);
        } else {
            assert(tiles.take(k) =~= tiles);
        }
    }

    /// A dangling reference found under the first `k` layers is the first
    /// dangling reference under all of them.
    pub proof fn lemma_first_dangling_under_prefix(
        self,
        layers: Seq<Entity>,
        ids: Map<Entity, SaveId>,
        k: int,
    )
        requires
            0 <= k <= layers.len(),
            self.first_dangling_under(layers.take(k), ids) is Some,
        ensures
            self.first_dangling_under(layers, ids) == self.first_dangling_under(
                layers.take(k),
                ids,
            ),
        decreases layers.len() - k,
    {
        if k < layers.len() {
            assert(layers.take(k + 1).drop_last() =~= layers.take(k));
            self.lemma_first_dangling_under_prefix(layers, ids, k + 1);
        } else {
            assert(layers.take(k) =~= layers);
        }
    }
}

impl World {
    /// The children of `parent` that carry data of `kind`, in their order;
    /// none where `parent` is not an object of the session.
    pub fn children_of_kind(&self, parent: Entity, kind: Kind) -> (picked: Vec<Entity>)
        requires
            self.wf(),
        ensures
            picked@ == if self@.contains(parent) {
                self@.pick(self@.children(parent), kind)
            } else {
                Seq::empty()
            },
    {
        let mut picked: Vec<Entity> = Vec::new();
        match self.children(parent) {
            Some(children) => {
                let n = children.len();
                let mut i: usize = 0;
                proof {
                    assert(children@.take(0) =~= Seq::<Entity>::empty());
                }
                while i < n
                    invariant
                        self.wf(),
                        n == children@.len(),
                        i <= n,
                        picked@ == self@.pick(children@.take(i as int), kind),
                    decreases n - i,
                {
                    let child = children[i];
                    proof {
                        assert(children@.take(i + 1).drop_last() =~= children@.take(i as int));
                        assert(children@.take(i + 1).last() == child);
                    }
                    match self.data(child) {
                        Some(data) => {
                            if data.kind() == kind {
                                picked.push(child);
                            }
                        },
                        None => {},
                    }
                    i += 1;
                }
                proof {
                    assert(children@.take(n as int) =~= children@);
                }
            },
            None => {},
        }
        picked
    }
}

impl MapFormat {
    /// Records one live layer: its name and the tiles placed on it in their
    /// order, each with the stable id that `ids` has for its tileset.  Fails
    /// with the reference of the first tile whose tileset `ids` does not
    /// have.
    pub fn encode_layer(world: &World, layer: Entity, ids: &EntityMap) -> (r: Result<
        LayerFormat,
        TileRef,
    >)
        requires
            world.wf(),
            world@.is_a(layer, Kind::Layer),
        ensures
            match r {
                Ok(l) => world@.layer_depicted(layer, l@, ids@) && world@.first_dangling(
                    world@.tiles_of(layer),
                    ids@,
                ) is None,
                Err(tile_ref) => world@.first_dangling(world@.tiles_of(layer), ids@) == Some(
                    tile_ref,
                ),
            },
    {
        let name = match world.data(layer) {
            Some(Component::Layer(l)) => l.name.clone(),
            _ => unreached(),
        };
        let tiles = world.children_of_kind(layer, Kind::Tile);
        let mut out = LayerFormat::new(name);
        let n = tiles.len();
        let mut k: usize = 0;
        proof {
            world@.lemma_pick(world@.children(layer), Kind::Tile);
            assert(tiles@.take(0) =~= Seq::<Entity>::empty());
        }
        while k < n
            invariant
                world.wf(),
                n == tiles@.len(),
                k <= n,
                tiles@ == world@.tiles_of(layer),
                forall|e: Entity| tiles@.contains(e) ==> #[trigger] world@.is_a(e, Kind::Tile),
                out@.name == world@.data(layer)->Layer_0,
                out@.tiles.len() == k,
                world@.first_dangling(tiles@.take(k as int), ids@) is None,
                forall|i: int|
                    0 <= i < k ==> ids@.contains_key(
                        world@.placement(#[trigger] tiles@[i]).tile_ref.tileset,
                    ) && out@.tiles[i] == world@.instance(tiles@[i], ids@),
            decreases n - k,
        {
            let e = tiles[k];
            proof {
                assert(tiles@.contains(e));
                assert(world@.is_a(e, Kind::Tile));
                assert(tiles@.take(k + 1).drop_last() =~= tiles@.take(k as int));
                assert(tiles@.take(k + 1).last() == e);
            }
            let placement = match world.data(e) {
                Some(Component::Tile(p)) => *p,
                _ => unreached(),
            };
            match ids.get(placement.tile_ref.tileset) {
                Some(id) => {
                    out.tiles.push(
                        TileInstance {
                            location: placement.location,
                            tileset: id,
                            tile_id: placement.tile_ref.tile,
                            rotation: placement.transform.rotation,
                        },
                    );
                },
                None => {
                    proof {
                        assert(placement == world@.placement(e));
                        assert(world@.first_dangling(tiles@.take(k + 1), ids@) == Some(
                            placement.tile_ref,
                        ));
                        world@.lemma_first_dangling_prefix(tiles@, ids@, k + 1);
                    }
                    return Err(placement.tile_ref);
                },
            }
            k += 1;
        }
        proof {
            assert(tiles@.take(n as int) =~= tiles@);
        }
        Ok(out)
    }

    /// Records the layers of the map rooted at `root`, in their order, after
    /// what the document holds.  Fails with
    /// [`MapError::DanglingTilesetRef`] at the first tile whose tileset
    /// `ids` does not have.
    pub fn add_layers(&mut self, world: &World, root: Entity, ids: &EntityMap) -> (r: Result<
        (),
        MapError,
    >)
        requires
            old(self).wf(),
            old(self)@.layers.len() == 0,
            world.wf(),
            world@.contains(root),
        ensures
            final(self).wf(),
            final(self)@.version == old(self)@.version,
            final(self)@.layout == old(self)@.layout,
            final(self)@.tilesets == old(self)@.tilesets,
            match r {
                Ok(_) => world@.layers_depicted(
                    world@.layers_of(root),
                    final(self)@.layers,
                    ids@,
                ) && world@.first_dangling_under(world@.layers_of(root), ids@) is None,
                Err(e) => world@.first_dangling_under(world@.layers_of(root), ids@) matches Some(
                    tile_ref,
                ) && e == MapError::DanglingTilesetRef(tile_ref),
            },
    {
        let layers = world.children_of_kind(root, Kind::Layer);
        let n = layers.len();
        let mut l: usize = 0;
        proof {
            world@.lemma_pick(world@.children(root), Kind::Layer);
            assert(layers@.take(0) =~= Seq::<Entity>::empty());
        }
        while l < n
            invariant
                self.wf(),
                world.wf(),
                self@.version == old(self)@.version,
                self@.layout == old(self)@.layout,
                self@.tilesets == old(self)@.tilesets,
                n == layers@.len(),
                l <= n,
                layers@ == world@.layers_of(root),
                forall|e: Entity| layers@.contains(e) ==> #[trigger] world@.is_a(e, Kind::Layer),
                self@.layers.len() == l,
                world@.first_dangling_under(layers@.take(l as int), ids@) is None,
                forall|i: int|
                    0 <= i < l ==> world@.layer_depicted(#[trigger] layers@[i], self@.layers[i], ids@),
            decreases n - l,
        {
            let e = layers[l];
            proof {
                assert(layers@.contains(e));
                assert(layers@.take(l + 1).drop_last() =~= layers@.take(l as int));
                assert(layers@.take(l + 1).last() == e);
            }
            match MapFormat::encode_layer(world, e, ids) {
                Ok(layer) => {
                    self.push_layer(layer);
                },
                Err(tile_ref) => {
                    proof {
                        world@.lemma_first_dangling_under_prefix(layers@, ids@, l + 1);
                    }
                    return Err(MapError::DanglingTilesetRef(tile_ref));
                },
            }
            l += 1;
        }
        proof {
            assert(layers@.take(n as int) =~= layers@);
        }
        Ok(())
    }

    /// Gives every tileset of the map rooted at `root` a stable id, where it
    /// has none, and enters the tilesets into the document under their ids.
    /// Returns the ids by tileset.
    pub fn add_tilesets(&mut self, world: &mut World, root: Entity) -> (r: Result<
        EntityMap,
        MapError,
    >)
        requires
            old(self).wf(),
            old(self)@.tilesets.len() == 0,
            old(world).wf(),
            old(world)@.contains(root),
            old(world)@.next_save_id() + old(world)@.children(root).len() <= usize::MAX,
        ensures
            final(self).wf(),
            final(world).wf(),
            final(self)@.version == old(self)@.version,
            final(self)@.layout == old(self)@.layout,
            final(self)@.layers == old(self)@.layers,
            final(world)@ == old(world)@.assigned(old(world)@.tilesets_of(root)),
            r matches Ok(ids) && ids@ == final(world)@.ids_of(old(world)@.tilesets_of(root))
                && final(world)@.tilesets_depicted(
                old(world)@.tilesets_of(root),
                final(self)@.tilesets,
                ids@,
            ),
    {
        let tilesets = world.children_of_kind(root, Kind::Tileset);
        let ghost before = world@;
        proof {
            before.lemma_pick(before.children(root), Kind::Tileset);
            before.lemma_all_known(tilesets@);
            before.lemma_assign_keeps(tilesets@);
        }
        let ids = match world.assign_save_ids(&tilesets) {
            Ok(ids) => ids,
            Err(e) => {
                return Err(e);
            },
        };
        let n = tilesets.len();
        let mut j: usize = 0;
        proof {
            assert(tilesets@.take(0) =~= Seq::<Entity>::empty());
            world.lemma_wf_view();
        }
        while j < n
            invariant
                self.wf(),
                world.wf(),
                world@.wf(),
                self@.version == old(self)@.version,
                self@.layout == old(self)@.layout,
                self@.layers == old(self)@.layers,
                n == tilesets@.len(),
                j <= n,
                ids@ == world@.ids_of(tilesets@),
                forall|e: Entity|
                    tilesets@.contains(e) ==> #[trigger] world@.is_a(e, Kind::Tileset)
                        && world@.save_id(e) is Some,
                world@.tilesets_depicted(tilesets@.take(j as int), self@.tilesets, ids@),
            decreases n - j,
        {
            let e = tilesets[j];
            let ghost prev = tilesets@.take(j as int);
            let ghost upto = tilesets@.take(j + 1);
            let ghost entries = self@.tilesets;
            proof {
                assert(tilesets@.contains(e));
                assert(world@.is_a(e, Kind::Tileset));
                assert forall|x: Entity| upto.contains(x) <==> prev.contains(x) || x == e by {
                    if upto.contains(x) {
                        let k = choose|k: int| 0 <= k < upto.len() && upto[k] == x;
                        if k < j {
                            assert(prev[k] == x);
                        }
                    }
                    if prev.contains(x) {
                        let k = choose|k: int| 0 <= k < prev.len() && prev[k] == x;
                        assert(upto[k] == x);
                    }
                    if x == e {
                        assert(upto[j as int] == x);
                    }
                }
                assert forall|x: Entity| prev.contains(x) implies tilesets@.contains(x) by {
                    let k = choose|k: int| 0 <= k < prev.len() && prev[k] == x;
                    assert(tilesets@[k] == x);
                }
            }
            let id = match ids.get(e) {
                Some(id) => id,
                None => unreached(),
            };
            let tileset = match world.data(e) {
                Some(Component::Tileset(t)) => t.clone(),
                _ => unreached(),
            };
            let ghost view = tileset@;
            if self.has_tileset(id) {
                proof {
                    let i = self@.tileset_index(id);
                    assert(entries[i].0 == id);
                    let x = choose|x: Entity| #[trigger]
                        prev.contains(x) && entries[i] == (ids@[x], world@.data(x)->Tileset_0);
                    assert(tilesets@.contains(x));
                    assert(world@.is_a(x, Kind::Tileset) && world@.save_id(x) is Some);
                    assert(world@.is_a(e, Kind::Tileset) && world@.save_id(e) is Some);
                    assert(ids@[x] == world@.save_id(x)->Some_0);
                    assert(ids@[e] == world@.save_id(e)->Some_0);
                    assert(ids@[x] == id);
                    assert(world@.save_id(x) == world@.save_id(e));
                    assert(x == e);
                    assert(entries.contains((id, view)));
                }
            } else {
                proof {
                    tileset.lemma_wf_view();
                    self@.lemma_with_tileset(id, view);
                }
                let inserted = self.insert_tileset(id, tileset);
                proof {
                    let after = self@.tilesets;
                    assert forall|x: Entity| #[trigger] upto.contains(x) implies ids@.contains_key(
                        x,
                    ) && after.contains((ids@[x], world@.data(x)->Tileset_0)) by {
                        if x != e {
                            assert(prev.contains(x));
                            assert(entries.contains((ids@[x], world@.data(x)->Tileset_0)));
                        }
                    }
                    assert forall|i: int|
                        #![trigger after[i]]
                        0 <= i < after.len() implies exists|x: Entity| #[trigger]
                        upto.contains(x) && after[i] == (ids@[x], world@.data(x)->Tileset_0) by {
                        assert(after.contains(after[i]));
                        if entries.contains(after[i]) {
                            let k = choose|k: int| 0 <= k < entries.len() && entries[k] == after[i];
                            let x = choose|x: Entity| #[trigger]
                                prev.contains(x) && entries[k] == (
                                    ids@[x],
                                    world@.data(x)->Tileset_0,
                                );
                            assert(upto.contains(x));
                        } else {
                            assert(upto.contains(e));
                        }
                    }
                }
            }
            j += 1;
        }
        proof {
            assert(tilesets@.take(n as int) =~= tilesets@);
        }
        Ok(ids)
    }

    /// Builds the document of the map rooted at `root`.
    ///
    /// Fails with [`MapError::NotAMap`], and changes nothing, where `root`
    /// is not an object that carries the grid layout of a map.  Otherwise
    /// every tileset of the map that has no stable id is given one: this is
    /// the one change that encoding makes to the session.  The document
    /// records the layout, the tilesets under their stable ids, and each
    /// layer with its tiles in their live order.  Fails with
    /// [`MapError::DanglingTilesetRef`] at the first tile whose tileset is
    /// not a tileset of this map.
    pub fn try_new(world: &mut World, root: Entity) -> (r: Result<MapFormat, MapError>)
        requires
            old(world).wf(),
            old(world)@.contains(root) ==> old(world)@.next_save_id() + old(world)@.children(
                root,
            ).len() <= usize::MAX,
        ensures
            final(world).wf(),
            !old(world)@.is_a(root, Kind::MapRoot) ==> r == Err::<MapFormat, MapError>(
                MapError::NotAMap(root),
            ) && final(world)@ == old(world)@,
            old(world)@.is_a(root, Kind::MapRoot) ==> {
                let tilesets = old(world)@.tilesets_of(root);
                let ids = final(world)@.ids_of(tilesets);
                &&& final(world)@ == old(world)@.assigned(tilesets)
                &&& match r {
                    Ok(doc) => {
                        &&& doc.wf()
                        &&& doc@.version == MAP_FORMAT_VERSION
                        &&& final(world)@.depicted_by(root, doc@, ids)
                        &&& final(world)@.first_dangling_under(final(world)@.layers_of(root), ids)
                            is None
                    },
                    Err(e) => final(world)@.first_dangling_under(
                        final(world)@.layers_of(root),
                        ids,
                    ) matches Some(tile_ref) && e == MapError::DanglingTilesetRef(tile_ref),
                }
            },
    {
        let layout = match world.data(root) {
            Some(Component::MapRoot(map)) => map.layout.clone(),
            _ => {
                return Err(MapError::NotAMap(root));
            },
        };
        let ghost before = world@;
        let ghost tilesets = before.tilesets_of(root);
        let mut doc = MapFormat::new(MAP_FORMAT_VERSION, layout);
        let ids = match doc.add_tilesets(world, root) {
            Ok(ids) => ids,
            Err(e) => {
                return Err(e);
            },
        };
        proof {
            world.lemma_wf_view();
            before.lemma_assign_keeps(tilesets);
            before.lemma_assign_covers(tilesets);
            before.lemma_pick_agrees(world@, before.children(root), Kind::Tileset);
            before.lemma_pick(before.children(root), Kind::Tileset);
            assert(world@.children(root) == before.children(root));
            assert(world@.data(root) == before.data(root));
            assert(world@.tilesets_of(root) == tilesets);
            assert forall|a: Entity, b: Entity|
                ids@.contains_key(a) && ids@.contains_key(b) && #[trigger] ids@[a]
                    == #[trigger] ids@[b] implies a == b by {
                assert(tilesets.contains(a) && tilesets.contains(b));
                assert(before.is_a(a, Kind::Tileset) && before.is_a(b, Kind::Tileset));
                assert(world@.save_id(a) is Some && world@.save_id(b) is Some);
                assert(ids@[a] == world@.save_id(a)->Some_0);
                assert(ids@[b] == world@.save_id(b)->Some_0);
                assert(world@.save_id(a) == world@.save_id(b));
            }
        }
        match doc.add_layers(world, root, &ids) {
            Ok(_) => Ok(doc),
            Err(e) => Err(e),
        }
    }
}

impl MapFormatView {
    /// Why a tile of the document cannot be instantiated, if it cannot: its
    /// tileset is not in the document, or its tile is not in that tileset.
    pub open spec fn check(self, tile: TileInstance) -> Option<SpawnError> {
        if !self.has_tileset(tile.tileset) {
            Some(SpawnError::UnresolvedTilesetRef(tile.tileset))
        } else if !self.tilesets[self.tileset_index(tile.tileset)].1.tiles.contains_key(
            tile.tile_id,
        ) {
            Some(SpawnError::UnresolvedTileId { tileset: tile.tileset, tile_id: tile.tile_id })
        } else {
            None
        }
    }

    /// The live placement of a tile of the document, when the tilesets of
    /// the document are the objects from `base` on, in document order.
    pub open spec fn placement(self, base: nat, tile: TileInstance) -> TilePlacement {
        TilePlacement {
            location: tile.location,
            tile_ref: TileRef {
                tileset: Entity { index: (base + self.tileset_index(tile.tileset)) as usize },
                tile: tile.tile_id,
            },
            transform: TileTransform { rotation: tile.rotation },
        }
    }

    /// Those of `tiles`, the first tiles of the layer with index `layer`,
    /// that cannot be instantiated, in order, each with the reason.
    pub open spec fn skipped_in(self, layer: int, tiles: Seq<TileInstance>) -> Seq<SkippedTile>
        decreases tiles.len(),
    {
        if tiles.len() == 0 {
            Seq::empty()
        } else {
            let rest = self.skipped_in(layer, tiles.drop_last());
            match self.check(tiles.last()) {
                Some(error) => rest.push(
                    SkippedTile {
                        layer: layer as usize,
                        index: (tiles.len() - 1) as usize,
                        instance: tiles.last(),
                        error,
                    },
                ),
                None => rest,
            }
        }
    }

    /// The tiles of `layers`, the first layers of the document, that cannot
    /// be instantiated, layer by layer.
    pub open spec fn skipped(self, layers: Seq<LayerFormatView>) -> Seq<SkippedTile>
        decreases layers.len(),
    {
        if layers.len() == 0 {
            Seq::empty()
        } else {
            self.skipped(layers.drop_last()) + self.skipped_in(
                layers.len() - 1,
                layers.last().tiles,
            )
        }
    }
}

impl WorldView {
    /// This world after one object has been spawned under `root` for each of
    /// `tilesets`, in order.
    pub open spec fn with_tilesets(
        self,
        root: Entity,
        tilesets: Seq<(SaveId, TilesetView)>,
    ) -> WorldView
        decreases tilesets.len(),
    {
        if tilesets.len() == 0 {
            self
        } else {
            self.with_tilesets(root, tilesets.drop_last()).spawn_child(
                root,
                ComponentView::Tileset(tilesets.last().1),
            )
        }
    }

    /// This world after one object has been spawned under `layer` for each
    /// of `tiles` that `doc` can instantiate, in order.
    pub open spec fn with_tiles(
        self,
        layer: Entity,
        doc: MapFormatView,
        base: nat,
        tiles: Seq<TileInstance>,
    ) -> WorldView
        decreases tiles.len(),
    {
        if tiles.len() == 0 {
            self
        } else {
            let prev = self.with_tiles(layer, doc, base, tiles.drop_last());
            if doc.check(tiles.last()) is None {
                prev.spawn_child(layer, ComponentView::Tile(doc.placement(base, tiles.last())))
            } else {
                prev
            }
        }
    }

    /// This world after each of `layers` has been spawned under `root`, in
    /// order, each followed by those of its tiles that `doc` can
    /// instantiate.
    pub open spec fn with_layers(
        self,
        root: Entity,
        doc: MapFormatView,
        base: nat,
        layers: Seq<LayerFormatView>,
    ) -> WorldView
        decreases layers.len(),
    {
        if layers.len() == 0 {
            self
        } else {
            let prev = self.with_layers(root, doc, base, layers.drop_last());
            prev.spawn_child(root, ComponentView::Layer(layers.last().name)).with_tiles(
                Entity { index: prev.len() as usize },
                doc,
                base,
                layers.last().tiles,
            )
        }
    }

    /// This world after `doc` has been instantiated under `root`: the
    /// tilesets of the document as new children of `root`, in document
    /// order; then its layers as further children of `root`, each with its
    /// tiles as children, but for the tiles that cannot be resolved; and
    /// the layout of the document attached to `root`.
    pub open spec fn instantiated(self, root: Entity, doc: MapFormatView) -> WorldView {
        self.with_tilesets(root, doc.tilesets).with_layers(
            root,
            doc,
            self.len(),
            doc.layers,
        ).with_data(root, ComponentView::MapRoot(doc.layout))
    }
}

/// Whether `index` finds the tilesets of `doc` by the number of their stable
/// id.
pub open spec fn indexes(index: Map<usize, usize>, doc: MapFormatView) -> bool {
    &&& forall|id: usize| #[trigger] index.contains_key(id) <==> doc.has_tileset(SaveId(id))
    &&& forall|id: usize| #[trigger]
        index.contains_key(id) ==> index[id] == doc.tileset_index(SaveId(id))
}

impl MapFormat {
    /// An index from the number of a stable id to the place of its tileset
    /// in the document.
    fn index_tilesets(&self) -> (index: HashMap<usize, usize>)
        requires
            self.wf(),
        ensures
            indexes(index@, self@),
    {
        let mut index: HashMap<usize, usize> = HashMap::new();
        let n = self.tilesets.len();
        let mut i: usize = 0;
        while i < n
            invariant
                self.wf(),
                n == self@.tilesets.len(),
                i <= n,
                forall|id: usize| #[trigger]
                    index@.contains_key(id) <==> exists|k: int|
                        0 <= k < i && (#[trigger] self@.tilesets[k]).0 == SaveId(id),
                forall|id: usize| #[trigger]
                    index@.contains_key(id) ==> index@[id] == self@.tileset_index(SaveId(id)),
            decreases n - i,
        {
            let id = self.tilesets[i].0.0;
            let ghost before = index@;
            proof {
                self@.lemma_tileset_index(i as int);
                assert(self@.tilesets[i as int].0 == SaveId(id));
            }
            index.insert(id, i);
            proof {
                assert forall|other: usize| #[trigger]
                    index@.contains_key(other) <==> exists|k: int|
                        0 <= k < i + 1 && (#[trigger] self@.tilesets[k]).0 == SaveId(other) by {
                    if before.contains_key(other) {
                        let k = choose|k: int|
                            0 <= k < i && (#[trigger] self@.tilesets[k]).0 == SaveId(other);
                        assert(0 <= k < i + 1 && self@.tilesets[k].0 == SaveId(other));
                    }
                    if exists|k: int|
                        0 <= k < i + 1 && (#[trigger] self@.tilesets[k]).0 == SaveId(other) {
                        let k = choose|k: int|
                            0 <= k < i + 1 && (#[trigger] self@.tilesets[k]).0 == SaveId(other);
                        if k < i {
                            assert(before.contains_key(other));
                        }
                    }
                }
            }
            i += 1;
        }
        proof {
            assert forall|id: usize| #[trigger] index@.contains_key(id) <==> self@.has_tileset(
                SaveId(id),
            ) by {
                if self@.has_tileset(SaveId(id)) {
                    let k = self@.tileset_index(SaveId(id));
                    assert(0 <= k < i && self@.tilesets[k].0 == SaveId(id));
                }
            }
        }
        index
    }

    /// Spawns one object under `root` for each tileset of the document, in
    /// document order.
    fn spawn_tilesets(&self, world: &mut World, root: Entity)
        requires
            self.wf(),
            old(world).wf(),
            old(world)@.contains(root),
        ensures
            final(world).wf(),
            final(world)@ == old(world)@.with_tilesets(root, self@.tilesets),
            final(world)@.len() == old(world)@.len() + self@.tilesets.len(),
    {
        let n = self.tilesets.len();
        let mut i: usize = 0;
        proof {
            assert(self@.tilesets.take(0) =~= Seq::empty());
        }
        while i < n
            invariant
                self.wf(),
                world.wf(),
                n == self@.tilesets.len(),
                i <= n,
                world@.contains(root),
                world@.len() == old(world)@.len() + i,
                world@ == old(world)@.with_tilesets(root, self@.tilesets.take(i as int)),
            decreases n - i,
        {
            proof {
                assert(self@.tilesets.take(i + 1).drop_last() =~= self@.tilesets.take(i as int));
                assert(self@.tilesets.take(i + 1).last() == self@.tilesets[i as int]);
            }
            let tileset = self.tilesets[i].1.clone();
            match world.spawn_child(root, Component::Tileset(tileset)) {
                Ok(_) => {},
                Err(_) => {
                    unreached::<()>();
                },
            }
            i += 1;
        }
        proof {
            assert(self@.tilesets.take(n as int) =~= self@.tilesets);
        }
    }

    /// Spawns one object under `layer` for each tile of the layer with
    /// index `l` that can be resolved, and appends the others to `skipped`.
    fn spawn_tiles(
        &self,
        world: &mut World,
        layer: Entity,
        l: usize,
        base: usize,
        index: &HashMap<usize, usize>,
        skipped: &mut Vec<SkippedTile>,
    )
        requires
            self.wf(),
            old(world).wf(),
            old(world)@.contains(layer),
            l < self@.layers.len(),
            base + self@.tilesets.len() <= old(world)@.len(),
            indexes(index@, self@),
        ensures
            final(world).wf(),
            final(world)@ == old(world)@.with_tiles(
                layer,
                self@,
                base as nat,
                self@.layers[l as int].tiles,
            ),
            final(world)@.len() >= old(world)@.len(),
            final(skipped)@ == old(skipped)@ + self@.skipped_in(
                l as int,
                self@.layers[l as int].tiles,
            ),
    {
        let tiles = &self.layers[l].tiles;
        let n = tiles.len();
        let mut k: usize = 0;
        proof {
            assert(tiles@ == self@.layers[l as int].tiles);
            assert(tiles@.take(0) =~= Seq::<TileInstance>::empty());
            assert(old(skipped)@ + Seq::<SkippedTile>::empty() =~= old(skipped)@);
        }
        while k < n
            invariant
                self.wf(),
                world.wf(),
                world@.contains(layer),
                n == tiles@.len(),
                k <= n,
                l < self@.layers.len(),
                tiles@ == self@.layers[l as int].tiles,
                base + self@.tilesets.len() <= old(world)@.len() <= world@.len(),
                indexes(index@, self@),
                world@ == old(world)@.with_tiles(layer, self@, base as nat, tiles@.take(k as int)),
                skipped@ == old(skipped)@ + self@.skipped_in(l as int, tiles@.take(k as int)),
            decreases n - k,
        {
            let tile = tiles[k];
            let ghost done = self@.skipped_in(l as int, tiles@.take(k as int));
            proof {
                assert(tiles@.take(k + 1).drop_last() =~= tiles@.take(k as int));
                assert(tiles@.take(k + 1).last() == tile);
            }
            let bound = world.len();
            let found = match index.get(&tile.tileset.0) {
                Some(i) => {
                    assert(index@.contains_key(tile.tileset.0));
                    assert(self@.has_tileset(SaveId(tile.tileset.0)));
                    let i = *i;
                    assert(i == self@.tileset_index(tile.tileset));
                    assert(self@.tilesets[i as int].0 == tile.tileset);
                    if self.tilesets[i].1.contains(tile.tile_id) {
                        Ok(Entity { index: base + i })
                    } else {
                        Err(
                            SpawnError::UnresolvedTileId {
                                tileset: tile.tileset,
                                tile_id: tile.tile_id,
                            },
                        )
                    }
                },
                None => {
                    assert(!index@.contains_key(tile.tileset.0));
                    assert(!self@.has_tileset(SaveId(tile.tileset.0)));
                    Err(SpawnError::UnresolvedTilesetRef(tile.tileset))
                },
            };
            match found {
                Ok(tileset) => {
                    let placement = TilePlacement {
                        location: tile.location,
                        tile_ref: TileRef { tileset, tile: tile.tile_id },
                        transform: TileTransform { rotation: tile.rotation },
                    };
                    assert(self@.check(tile) is None);
                    assert(placement == self@.placement(base as nat, tile));
                    match world.spawn_child(layer, Component::Tile(placement)) {
                        Ok(_) => {},
                        Err(_) => {
                            unreached::<()>();
                        },
                    }
                },
                Err(error) => {
                    assert(self@.check(tile) == Some(error));
                    let item = SkippedTile { layer: l, index: k, instance: tile, error };
                    proof {
                        assert((old(skipped)@ + done).push(item) =~= old(skipped)@ + done.push(
                            item,
                        ));
                    }
                    skipped.push(item);
                },
            }
            k += 1;
        }
        proof {
            assert(tiles@.take(n as int) =~= tiles@);
        }
    }

    /// Instantiates the document under `root`.
    ///
    /// Fails, and changes nothing, where the version of the document is not
    /// [`MAP_FORMAT_VERSION`], and where `root` is not an object of the
    /// session.  Otherwise spawns the tilesets of the document under `root`
    /// in document order, then each layer under `root` with its tiles as
    /// children, and attaches the layout to `root`.  A tile whose tileset is
    /// not in the document, or whose tile id is not in its tileset, is left
    /// out and reported; the rest of the document is instantiated all the
    /// same.  Returns the tiles left out, in document order.
    pub fn try_spawn(&self, world: &mut World, root: Entity) -> (r: Result<
        Vec<SkippedTile>,
        MapError,
    >)
        requires
            self.wf(),
            old(world).wf(),
        ensures
            final(world).wf(),
            match r {
                Ok(skipped) => {
                    &&& self@.version == MAP_FORMAT_VERSION
                    &&& old(world)@.contains(root)
                    &&& final(world)@ == old(world)@.instantiated(root, self@)
                    &&& skipped@ == self@.skipped(self@.layers)
                },
                Err(e) => {
                    &&& final(world)@ == old(world)@
                    &&& self@.version != MAP_FORMAT_VERSION || !old(world)@.contains(root)
                    &&& e == if self@.version != MAP_FORMAT_VERSION {
                        MapError::UnsupportedVersion {
                            found: self@.version,
                            supported: MAP_FORMAT_VERSION,
                        }
                    } else {
                        MapError::UnknownObject(root)
                    }
                },
            },
    {
        if self.version != MAP_FORMAT_VERSION {
            return Err(
                MapError::UnsupportedVersion { found: self.version, supported: MAP_FORMAT_VERSION },
            );
        }
        if !world.contains(root) {
            return Err(MapError::UnknownObject(root));
        }
        let base = world.len();
        let index = self.index_tilesets();
        self.spawn_tilesets(world, root);
        let ghost start = world@;
        let mut skipped: Vec<SkippedTile> = Vec::new();
        let n = self.layers.len();
        let mut l: usize = 0;
        proof {
            assert(self@.layers.take(0) =~= Seq::empty());
        }
        while l < n
            invariant
                self.wf(),
                world.wf(),
                n == self@.layers.len(),
                l <= n,
                world@.contains(root),
                base + self@.tilesets.len() <= world@.len(),
                indexes(index@, self@),
                world@ == start.with_layers(root, self@, base as nat, self@.layers.take(l as int)),
                skipped@ == self@.skipped(self@.layers.take(l as int)),
            decreases n - l,
        {
            proof {
                assert(self@.layers.take(l + 1).drop_last() =~= self@.layers.take(l as int));
                assert(self@.layers.take(l + 1).last() == self@.layers[l as int]);
            }
            let name = self.layers[l].name.clone();
            let layer = match world.spawn_child(root, Component::Layer(Layer::new(name))) {
                Ok(e) => e,
                Err(_) => unreached(),
            };
            self.spawn_tiles(world, layer, l, base, &index, &mut skipped);
            l += 1;
        }
        proof {
            assert(self@.layers.take(n as int) =~= self@.layers);
        }
        let map = HexMap::with_layout(self.layout.clone());
        match world.insert(root, Component::MapRoot(map)) {
            Ok(_) => {},
            Err(_) => {
                unreached::<()>();
            },
        }
        Ok(skipped)
    }
}

impl WorldView {
    /// The id above all stable ids of the first `n` objects: one more than
    /// the largest of them, or zero when none of them has one.
    pub open spec fn next_id_among(self, n: int) -> nat
        decreases n,
    {
        if n <= 0 {
            0
        } else {
            let rest = self.next_id_among(n - 1);
            match self.objects[n - 1].save_id {
                Some(id) => if id.0 >= rest {
                    (id.0 + 1) as nat
                } else {
                    rest
                },
                None => rest,
            }
        }
    }

    /// The next unused stable id: one more than the largest id that any
    /// object has, or zero when no object has one.
    pub open spec fn next_save_id(self) -> nat {
        self.next_id_among(self.objects.len() as int)
    }

    /// Whether `n` lies above every stable id in use and, unless it is
    /// zero, directly above one of them.
    pub open spec fn is_next_save_id(self, n: nat) -> bool {
        &&& forall|k: int|
            0 <= k < self.objects.len() ==> ((#[trigger] self.objects[k]).save_id matches Some(id)
                ==> id.0 < n)
        &&& n == 0 || exists|k: int|
            0 <= k < self.objects.len() && ((#[trigger] self.objects[k]).save_id matches Some(id)
                && id.0 + 1 == n)
    }

    /// This world after each of `entities`, in turn, that is an object
    /// without a stable id has been given the next unused one.
    pub open spec fn assigned(self, entities: Seq<Entity>) -> WorldView
        decreases entities.len(),
    {
        if entities.len() == 0 {
            self
        } else {
            let prev = self.assigned(entities.drop_last());
            let e = entities.last();
            if prev.contains(e) && prev.save_id(e) is None {
                prev.with_save_id(e, SaveId(prev.next_save_id() as usize))
            } else {
                prev
            }
        }
    }

    /// Index of the first of `entities` that is not an object of this
    /// world, if there is one.
    pub open spec fn first_unknown(self, entities: Seq<Entity>) -> Option<int>
        decreases entities.len(),
    {
        if entities.len() == 0 {
            None
        } else {
            match self.first_unknown(entities.drop_last()) {
                Some(k) => Some(k),
                None => if self.contains(entities.last()) {
                    None
                } else {
                    Some(entities.len() - 1)
                },
            }
        }
    }

    /// The stable ids of `entities`, for entities that all have one.
    pub open spec fn ids_of(self, entities: Seq<Entity>) -> Map<Entity, SaveId> {
        Map::new(|e: Entity| entities.contains(e), |e: Entity| self.save_id(e)->Some_0)
    }

    /// [`WorldView::next_id_among`] lies above every stable id of the first
    /// `n` objects and, unless it is zero, directly above one of them.
    pub proof fn lemma_next_id_among(self, n: int)
        requires
            0 <= n <= self.objects.len(),
        ensures
            forall|k: int|
                0 <= k < n ==> ((#[trigger] self.objects[k]).save_id matches Some(id) ==> id.0
                    < self.next_id_among(n)),
            self.next_id_among(n) == 0 || exists|k: int|
                0 <= k < n && ((#[trigger] self.objects[k]).save_id matches Some(id) && id.0 + 1
                    == self.next_id_among(n)),
        decreases n,
    {
        if n > 0 {
            self.lemma_next_id_among(n - 1);
            let rest = self.next_id_among(n - 1);
            let next = self.next_id_among(n);
            if next != rest {
                assert(self.objects[n - 1].save_id matches Some(id) && id.0 + 1 == next);
            } else if rest != 0 {
                let k = choose|k: int|
                    0 <= k < n - 1 && ((#[trigger] self.objects[k]).save_id matches Some(id)
                        && id.0 + 1 == rest);
                assert(self.objects[k].save_id matches Some(id) && id.0 + 1 == next);
            }
        }
    }

    /// [`WorldView::next_save_id`] is the one number that
    /// [`WorldView::is_next_save_id`] describes.
    pub proof fn lemma_next_save_id(self, n: nat)
        ensures
            self.is_next_save_id(self.next_save_id()),
            self.is_next_save_id(n) ==> n == self.next_save_id(),
    {
        let len = self.objects.len() as int;
        let next = self.next_save_id();
        self.lemma_next_id_among(len);
        if self.is_next_save_id(n) {
            if n != 0 {
                let k = choose|k: int|
                    0 <= k < len && ((#[trigger] self.objects[k]).save_id matches Some(id) && id.0
                        + 1 == n);
                assert(self.objects[k].save_id matches Some(id) ==> id.0 < next);
            }
            if next != 0 {
                let k = choose|k: int|
                    0 <= k < len && ((#[trigger] self.objects[k]).save_id matches Some(id) && id.0
                        + 1 == next);
                assert(self.objects[k].save_id matches Some(id) ==> id.0 < n);
            }
        }
    }

    /// The next unused id is not in use, and once an object has been given
    /// it, the next unused id is one more.
    pub proof fn lemma_next_after_assign(self, e: Entity)
        requires
            self.contains(e),
            self.save_id(e) is None,
            self.next_save_id() <= usize::MAX,
        ensures
            !self.id_in_use(SaveId(self.next_save_id() as usize)),
            self.with_save_id(e, SaveId(self.next_save_id() as usize)).next_save_id()
                == self.next_save_id() + 1,
    {
        let next = self.next_save_id();
        let id = SaveId(next as usize);
        let v = self.with_save_id(e, id);
        self.lemma_next_save_id(0);
        if self.id_in_use(id) {
            let other = choose|other: Entity|
                self.contains(other) && #[trigger] self.save_id(other) == Some(id);
            assert(self.objects[other.index as int].save_id matches Some(i) ==> i.0 < next);
        }
        assert(v.is_next_save_id(next + 1)) by {
            assert forall|k: int| 0 <= k < v.objects.len() implies ((#[trigger] v.objects[k]).save_id
                matches Some(i) ==> i.0 < next + 1) by {
                if k != e.index {
                    assert(self.objects[k].save_id matches Some(i) ==> i.0 < next);
                }
            }
            assert(v.objects[e.index as int].save_id matches Some(i) && i.0 + 1 == next + 1);
        }
        v.lemma_next_save_id(next + 1);
    }
}

/// The stable ids of a batch of objects, by object.
#[derive(Debug)]
pub struct EntityMap {
    ids: HashMap<usize, SaveId>,
}

impl View for EntityMap {
    type V = Map<Entity, SaveId>;

    closed spec fn view(&self) -> Map<Entity, SaveId> {
        Map::new(
            |e: Entity| self.ids@.contains_key(e.index),
            |e: Entity| self.ids@[e.index],
        )
    }
}

impl EntityMap {
    /// A map without entries.
    pub fn new() -> (m: EntityMap)
        ensures
            m@ == Map::<Entity, SaveId>::empty(),
    {
        let m = EntityMap { ids: HashMap::new() };
        assert(m@ =~= Map::<Entity, SaveId>::empty());
        m
    }

    /// Records that `e` has the stable id `id`, in place of what was
    /// recorded for `e` before.
    pub fn insert(&mut self, e: Entity, id: SaveId)
        ensures
            final(self)@ == old(self)@.insert(e, id),
    {
        self.ids.insert(e.index, id);
        assert(self@ =~= old(self)@.insert(e, id));
    }

    /// The stable id recorded for `e`, if there is one.
    pub fn get(&self, e: Entity) -> (id: Option<SaveId>)
        ensures
            id == if self@.contains_key(e) {
                Some(self@[e])
            } else {
                None
            },
    {
        match self.ids.get(&e.index) {
            Some(id) => Some(*id),
            None => None,
        }
    }

    /// Whether a stable id is recorded for `e`.
    pub fn contains(&self, e: Entity) -> (b: bool)
        ensures
            b == self@.contains_key(e),
    {
        self.ids.contains_key(&e.index)
    }
}

impl World {
    /// The next unused stable id: one more than the largest id that any
    /// object of the session has at this moment, or zero when none has one.
    /// The session is not changed.
    pub fn save_id_next(&self) -> (id: SaveId)
        requires
            self@.next_save_id() <= usize::MAX,
        ensures
            id.0 == self@.next_save_id(),
    {
        let n = self.len();
        let mut next: usize = 0;
        let mut i: usize = 0;
        while i < n
            invariant
                n == self@.len(),
                i <= n,
                next == self@.next_id_among(i as int),
                self@.next_save_id() <= usize::MAX,
            decreases n - i,
        {
            proof {
                self@.lemma_next_id_monotone(i + 1, n as int);
            }
            match self.save_id(Entity { index: i }) {
                Some(id) => {
                    if id.0 >= next {
                        next = id.0 + 1;
                    }
                },
                None => {},
            }
            i += 1;
        }
        SaveId(next)
    }

    /// Makes sure that each of `entities` has a stable id and returns the
    /// ids, by object.  An object that has an id keeps it; each other one
    /// is given, in the order of `entities`, the next id above all ids in
    /// use.  Stops at the first of `entities` that is not an object of the
    /// session: the objects before it have their ids, and the call fails
    /// with [`MapError::UnknownObject`].
    pub fn assign_save_ids(&mut self, entities: &Vec<Entity>) -> (r: Result<EntityMap, MapError>)
        requires
            old(self).wf(),
            old(self)@.next_save_id() + entities@.len() <= usize::MAX,
        ensures
            final(self).wf(),
            match r {
                Ok(map) => {
                    &&& old(self)@.first_unknown(entities@) is None
                    &&& final(self)@ == old(self)@.assigned(entities@)
                    &&& map@ == final(self)@.ids_of(entities@)
                    &&& forall|e: Entity|
                        entities@.contains(e) ==> #[trigger] final(self)@.save_id(e) is Some
                },
                Err(err) => {
                    &&& old(self)@.first_unknown(entities@) matches Some(k)
                    &&& err == MapError::UnknownObject(entities@[k])
                    &&& final(self)@ == old(self)@.assigned(entities@.take(k))
                },
            },
    {
        let mut next = self.save_id_next();
        let mut map = EntityMap::new();
        let n = entities.len();
        let mut i: usize = 0;
        proof {
            assert(entities@.take(0) =~= Seq::<Entity>::empty());
            assert(map@ =~= self@.ids_of(entities@.take(0)));
        }
        while i < n
            invariant
                self.wf(),
                n == entities@.len(),
                i <= n,
                self@.len() == old(self)@.len(),
                self@ == old(self)@.assigned(entities@.take(i as int)),
                old(self)@.first_unknown(entities@.take(i as int)) is None,
                next.0 == self@.next_save_id(),
                next.0 + (n - i) <= usize::MAX,
                map@ == self@.ids_of(entities@.take(i as int)),
                forall|e: Entity|
                    entities@.take(i as int).contains(e) ==> self@.contains(e)
                        && #[trigger] self@.save_id(e) is Some,
            decreases n - i,
        {
            let e = entities[i];
            let ghost prev = entities@.take(i as int);
            let ghost upto = entities@.take(i + 1);
            let ghost before = self@;
            proof {
                assert(upto.drop_last() =~= prev);
                assert(upto.last() == e);
                assert forall|x: Entity| upto.contains(x) <==> prev.contains(x) || x == e by {
                    if upto.contains(x) {
                        let k = choose|k: int| 0 <= k < upto.len() && upto[k] == x;
                        if k < i {
                            assert(prev[k] == x);
                        }
                    }
                    if prev.contains(x) {
                        let k = choose|k: int| 0 <= k < prev.len() && prev[k] == x;
                        assert(upto[k] == x);
                    }
                    if x == e {
                        assert(upto[i as int] == x);
                    }
                }
            }
            if !self.contains(e) {
                proof {
                    old(self)@.lemma_first_unknown_prefix(entities@, i + 1);
                }
                return Err(MapError::UnknownObject(e));
            }
            let id = match self.save_id(e) {
                Some(id) => id,
                None => {
                    let id = next;
                    proof {
                        self@.lemma_next_after_assign(e);
                    }
                    self.give_save_id(e, id);
                    next = SaveId(next.0 + 1);
                    id
                },
            };
            map.insert(e, id);
            proof {
                assert(map@ =~= self@.ids_of(upto)) by {
                    assert forall|x: Entity| upto.contains(x) implies #[trigger] map@[x]
                        == self@.ids_of(upto)[x] by {
                        if x != e {
                            assert(prev.contains(x));
                            assert(before.ids_of(prev)[x] == before.save_id(x)->Some_0);
                        }
                    }
                }
                assert forall|x: Entity| upto.contains(x) implies self@.contains(x)
                    && #[trigger] self@.save_id(x) is Some by {
                    if x != e {
                        assert(prev.contains(x));
                        assert(before.save_id(x) is Some);
                    }
                }
            }
            i += 1;
        }
        proof {
            assert(entities@.take(n as int) =~= entities@);
        }
        Ok(map)
    }
}

impl WorldView {
    /// Assigning stable ids changes nothing but stable ids, and only gives
    /// ids to objects that had none: an id that an object has is never
    /// overwritten.
    pub proof fn lemma_assign_keeps(self, entities: Seq<Entity>)
        ensures
            self.assigned(entities).len() == self.len(),
            forall|e: Entity| #[trigger]
                self.contains(e) ==> {
                    &&& self.assigned(entities).children(e) == self.children(e)
                    &&& self.assigned(entities).data(e) == self.data(e)
                    &&& self.save_id(e) is Some ==> self.assigned(entities).save_id(e)
                        == self.save_id(e)
                    &&& !entities.contains(e) ==> self.assigned(entities).save_id(e)
                        == self.save_id(e)
                },
        decreases entities.len(),
    {
        if entities.len() > 0 {
            let front = entities.drop_last();
            self.lemma_assign_keeps(front);
            let prev = self.assigned(front);
            let after = self.assigned(entities);
            assert forall|e: Entity| #[trigger] self.contains(e) implies {
                &&& after.children(e) == self.children(e)
                &&& after.data(e) == self.data(e)
                &&& self.save_id(e) is Some ==> after.save_id(e) == self.save_id(e)
                &&& !entities.contains(e) ==> after.save_id(e) == self.save_id(e)
            } by {
                assert(prev.children(e) == self.children(e));
                assert(prev.data(e) == self.data(e));
                assert(self.save_id(e) is Some ==> prev.save_id(e) == self.save_id(e));
                if !entities.contains(e) {
                    assert(entities[entities.len() - 1] != e);
                    if front.contains(e) {
                        let k = choose|k: int| 0 <= k < front.len() && front[k] == e;
                        assert(entities[k] == e);
                    }
                }
            }
        }
    }

    /// After stable ids have been assigned, every one of `entities` that is
    /// an object has one.
    pub proof fn lemma_assign_covers(self, entities: Seq<Entity>)
        ensures
            forall|e: Entity|
                entities.contains(e) && self.contains(e) ==> #[trigger] self.assigned(
                    entities,
                ).save_id(e) is Some,
        decreases entities.len(),
    {
        if entities.len() > 0 {
            let front = entities.drop_last();
            let last = entities.last();
            self.lemma_assign_covers(front);
            self.lemma_assign_keeps(front);
            let prev = self.assigned(front);
            let after = self.assigned(entities);
            assert forall|e: Entity| entities.contains(e) && self.contains(e) implies #[trigger] after.save_id(
                e,
            ) is Some by {
                let k = choose|k: int| 0 <= k < entities.len() && entities[k] == e;
                if k < front.len() {
                    assert(front[k] == e);
                    assert(front.contains(e));
                    assert(prev.save_id(e) is Some);
                }
            }
        }
    }

    /// Assigning where every one of `entities` that is an object has a
    /// stable id changes nothing.
    pub proof fn lemma_assign_settled(self, entities: Seq<Entity>)
        requires
            forall|e: Entity|
                entities.contains(e) && self.contains(e) ==> #[trigger] self.save_id(e) is Some,
        ensures
            self.assigned(entities) == self,
        decreases entities.len(),
    {
        if entities.len() > 0 {
            let front = entities.drop_last();
            assert forall|e: Entity| front.contains(e) && self.contains(e) implies #[trigger] self.save_id(
                e,
            ) is Some by {
                let k = choose|k: int| 0 <= k < front.len() && front[k] == e;
                assert(entities[k] == e);
            }
            self.lemma_assign_settled(front);
            assert(entities[entities.len() - 1] == entities.last());
            assert(entities.contains(entities.last()));
        }
    }

    /// Assigning stable ids to the same objects a second time changes
    /// nothing: every object keeps the id that the first call gave or found,
    /// so both calls report the same ids.
    pub proof fn lemma_assign_twice(self, entities: Seq<Entity>)
        ensures
            self.assigned(entities).assigned(entities) == self.assigned(entities),
            self.assigned(entities).assigned(entities).ids_of(entities) == self.assigned(
                entities,
            ).ids_of(entities),
    {
        self.lemma_assign_covers(entities);
        self.lemma_assign_keeps(entities);
        self.assigned(entities).lemma_assign_settled(entities);
    }

    /// Assigning stable ids keeps a session well formed; in particular no
    /// two objects share an id afterwards.
    pub proof fn lemma_assign_wf(self, entities: Seq<Entity>)
        requires
            self.wf(),
            self.next_save_id() + entities.len() <= usize::MAX,
        ensures
            self.assigned(entities).wf(),
            self.assigned(entities).next_save_id() <= self.next_save_id() + entities.len(),
        decreases entities.len(),
    {
        if entities.len() > 0 {
            let front = entities.drop_last();
            self.lemma_assign_wf(front);
            let prev = self.assigned(front);
            let e = entities.last();
            if prev.contains(e) && prev.save_id(e) is None {
                prev.lemma_next_after_assign(e);
                crate::world::lemma_with_save_id_wf(
                    prev,
                    e,
                    SaveId(prev.next_save_id() as usize),
                );
            }
        }
    }

    /// Looking at more objects never lowers [`WorldView::next_id_among`].
    pub proof fn lemma_next_id_monotone(self, i: int, j: int)
        requires
            0 <= i <= j,
        ensures
            self.next_id_among(i) <= self.next_id_among(j),
        decreases j - i,
    {
        if i < j {
            self.lemma_next_id_monotone(i, j - 1);
        }
    }

    /// An unknown object found in a prefix is the first unknown object of
    /// the whole sequence.
    pub proof fn lemma_first_unknown_prefix(self, entities: Seq<Entity>, k: int)
        requires
            0 <= k <= entities.len(),
            self.first_unknown(entities.take(k)) is Some,
        ensures
            self.first_unknown(entities) == self.first_unknown(entities.take(k)),
        decreases entities.len() - k,
    {
        if k < entities.len() {
            assert(entities.take(k + 1).drop_last() =~= entities.take(k));
            self.lemma_first_unknown_prefix(entities, k + 1);
        } else {
            assert(entities.take(k) =~= entities);
        }
    }
}

} // verus!
