//! The live session: the objects of an editing session, the data attached
//! to them, and which object is a child of which.
//!
//! The library needs three things of a session: to spawn an object, to
//! attach data to one, and to walk an object's children.  [`World`] offers
//! these over a growing list of objects; an [`Entity`] is an index into it.

use crate::map::{HexMap, Layer, Location};
use crate::persistence::{MapError, SaveId};
use crate::tileset::{TileId, TileTransform, Tileset, TilesetView};
use hexx::HexLayout;
use vstd::prelude::*;

verus! {

/// The identity of a live object within one [`World`].
#[derive(Clone, Copy, Debug, PartialEq, Eq, Hash, Structural)]
pub struct Entity {
    pub index: usize,
}

/// A reference from a placed tile to the tile it shows: the live tileset and
/// the tile's id within it.
#[derive(Clone, Copy, Debug, PartialEq, Eq, Hash, Structural)]
pub struct TileRef {
    pub tileset: Entity,
    pub tile: TileId,
}

/// The data of a tile placed on a layer.
#[derive(Clone, Copy, Debug, PartialEq, Eq, Hash, Structural)]
pub struct TilePlacement {
    pub location: Location,
    pub tile_ref: TileRef,
    pub transform: TileTransform,
}

/// What kind of data an object carries.
#[derive(Clone, Copy, Debug, PartialEq, Eq, Hash, Structural)]
pub enum Kind {
    Empty,
    MapRoot,
    Tileset,
    Layer,
    Tile,
}

/// The data attached to a live object.
#[derive(Debug)]
pub enum Component {
    /// Nothing that the library reads.
    Empty,
    /// The object is the root of a map.
    MapRoot(HexMap),
    /// The object is a tileset.
    Tileset(Tileset),
    /// The object is a layer.
    Layer(Layer),
    /// The object is a tile placed on a layer.
    Tile(TilePlacement),
}

/// What a [`Component`] holds, as mathematical values.
pub enum ComponentView {
    Empty,
    MapRoot(HexLayout),
    Tileset(TilesetView),
    Layer(Seq<char>),
    Tile(TilePlacement),
}

impl ComponentView {
    pub open spec fn kind(self) -> Kind {
        match self {
            ComponentView::Empty => Kind::Empty,
            ComponentView::MapRoot(_) => Kind::MapRoot,
            ComponentView::Tileset(_) => Kind::Tileset,
            ComponentView::Layer(_) => Kind::Layer,
            ComponentView::Tile(_) => Kind::Tile,
        }
    }

    /// A tileset among the data is well formed.
    pub open spec fn wf(self) -> bool {
        self matches ComponentView::Tileset(t) ==> t.wf()
    }
}

impl View for Component {
    type V = ComponentView;

    open spec fn view(&self) -> ComponentView {
        match self {
            Component::Empty => ComponentView::Empty,
            Component::MapRoot(m) => ComponentView::MapRoot(m.layout),
            Component::Tileset(t) => ComponentView::Tileset(t@),
            Component::Layer(l) => ComponentView::Layer(l.name@),
            Component::Tile(p) => ComponentView::Tile(*p),
        }
    }
}

impl Component {
    /// A tileset among the data is well formed.
    pub open spec fn wf(&self) -> bool {
        self matches Component::Tileset(t) ==> t.wf()
    }

    /// Well-formed data has a well-formed view.
    pub proof fn lemma_wf_view(&self)
        requires
            self.wf(),
        ensures
            self@.wf(),
    {
        match self {
            Component::Tileset(t) => {
                t.lemma_wf_view();
            },
            _ => {},
        }
    }

    /// What kind of data this is.
    pub fn kind(&self) -> (k: Kind)
        ensures
            k == self@.kind(),
    {
        match self {
            Component::Empty => Kind::Empty,
            Component::MapRoot(_) => Kind::MapRoot,
            Component::Tileset(_) => Kind::Tileset,
            Component::Layer(_) => Kind::Layer,
            Component::Tile(_) => Kind::Tile,
        }
    }
}

impl Clone for Component {
    fn clone(&self) -> (c: Component)
        ensures
            c@ == self@,
            self.wf() ==> c.wf(),
    {
        match self {
            Component::Empty => Component::Empty,
            Component::MapRoot(m) => Component::MapRoot(m.clone()),
            Component::Tileset(t) => Component::Tileset(t.clone()),
            Component::Layer(l) => Component::Layer(l.clone()),
            Component::Tile(p) => Component::Tile(*p),
        }
    }
}

/// One live object: its children in the order in which they were added, the
/// stable id it has been given, if any, and its data.
#[derive(Debug)]
pub struct Object {
    pub children: Vec<Entity>,
    pub save_id: Option<SaveId>,
    pub data: Component,
}

/// What an [`Object`] holds, as mathematical values.
pub struct ObjectView {
    pub children: Seq<Entity>,
    pub save_id: Option<SaveId>,
    pub data: ComponentView,
}

impl View for Object {
    type V = ObjectView;

    open spec fn view(&self) -> ObjectView {
        ObjectView { children: self.children@, save_id: self.save_id, data: self.data@ }
    }
}

/// What a [`World`] holds, as mathematical values: its objects, each at the
/// index that is its identity.
pub struct WorldView {
    pub objects: Seq<ObjectView>,
}

impl WorldView {
    /// Number of objects ever spawned.
    pub open spec fn len(self) -> nat {
        self.objects.len()
    }

    /// Whether `e` is an object of this world.
    pub open spec fn contains(self, e: Entity) -> bool {
        e.index < self.objects.len()
    }

    pub open spec fn object(self, e: Entity) -> ObjectView {
        self.objects[e.index as int]
    }

    pub open spec fn children(self, e: Entity) -> Seq<Entity> {
        self.object(e).children
    }

    pub open spec fn data(self, e: Entity) -> ComponentView {
        self.object(e).data
    }

    pub open spec fn save_id(self, e: Entity) -> Option<SaveId> {
        self.object(e).save_id
    }

    /// Whether `e` is an object of this world that carries data of `kind`.
    pub open spec fn is_a(self, e: Entity, kind: Kind) -> bool {
        self.contains(e) && self.data(e).kind() == kind
    }

    /// Every child named by an object is an object of this world.
    pub open spec fn children_exist(self) -> bool {
        forall|e: Entity, k: int|
            self.contains(e) && 0 <= k < self.children(e).len() ==> self.contains(
                #[trigger] self.children(e)[k],
            )
    }

    /// No two objects have the same stable id.
    pub open spec fn ids_unique(self) -> bool {
        forall|a: Entity, b: Entity|
            self.contains(a) && self.contains(b) && self.save_id(a) is Some && #[trigger] self.save_id(
                a,
            ) == #[trigger] self.save_id(b) ==> a == b
    }

    /// Every tileset in the world is well formed.
    pub open spec fn tilesets_wf(self) -> bool {
        forall|e: Entity| self.contains(e) ==> (#[trigger] self.data(e)).wf()
    }

    /// The invariant of a session.
    pub open spec fn wf(self) -> bool {
        &&& self.children_exist()
        &&& self.ids_unique()
        &&& self.tilesets_wf()
    }

    /// This world with one more object, which carries `data` and has neither
    /// children nor a stable id.  The new object's identity is the old
    /// [`WorldView::len`].
    pub open spec fn spawn(self, data: ComponentView) -> WorldView {
        WorldView {
            objects: self.objects.push(
                ObjectView { children: Seq::empty(), save_id: None, data },
            ),
        }
    }

    /// This world with `child` appended to the children of `parent`.
    pub open spec fn with_child(self, parent: Entity, child: Entity) -> WorldView {
        WorldView {
            objects: self.objects.update(
                parent.index as int,
                ObjectView { children: self.children(parent).push(child), ..self.object(parent) },
            ),
        }
    }

    /// This world with `data` attached to `e` in place of what `e` carried.
    pub open spec fn with_data(self, e: Entity, data: ComponentView) -> WorldView {
        WorldView {
            objects: self.objects.update(e.index as int, ObjectView { data, ..self.object(e) }),
        }
    }

    /// This world with the stable id `id` given to `e`.
    pub open spec fn with_save_id(self, e: Entity, id: SaveId) -> WorldView {
        WorldView {
            objects: self.objects.update(
                e.index as int,
                ObjectView { save_id: Some(id), ..self.object(e) },
            ),
        }
    }

    /// This world with one more object carrying `data`, made the last child
    /// of `parent`.
    pub open spec fn spawn_child(self, parent: Entity, data: ComponentView) -> WorldView {
        self.spawn(data).with_child(parent, Entity { index: self.len() as usize })
    }

    /// Those of `entities` that are objects carrying data of `kind`, in
    /// their order.
    pub open spec fn pick(self, entities: Seq<Entity>, kind: Kind) -> Seq<Entity>
        decreases entities.len(),
    {
        if entities.len() == 0 {
            entities
        } else {
            let rest = self.pick(entities.drop_last(), kind);
            if self.is_a(entities.last(), kind) {
                rest.push(entities.last())
            } else {
                rest
            }
        }
    }

    /// Whether exactly one object is the root of a map, and it is `e`.
    pub open spec fn is_single_map(self, e: Entity) -> bool {
        &&& self.is_a(e, Kind::MapRoot)
        &&& forall|other: Entity| #[trigger] self.is_a(other, Kind::MapRoot) ==> other == e
    }
}

/// The objects of one editing session.
#[derive(Debug)]
pub struct World {
    objects: Vec<Object>,
}

impl View for World {
    type V = WorldView;

    closed spec fn view(&self) -> WorldView {
        WorldView { objects: Seq::new(self.objects@.len(), |i: int| self.objects@[i]@) }
    }
}

impl World {
    /// The representation invariant: the view is well formed, and so is
    /// every stored tileset.
    pub closed spec fn wf(&self) -> bool {
        &&& self@.wf()
        &&& forall|i: int| 0 <= i < self.objects@.len() ==> (#[trigger] self.objects@[i]).data.wf()
    }

    /// A well-formed world has a well-formed view.
    pub proof fn lemma_wf_view(&self)
        requires
            self.wf(),
        ensures
            self@.wf(),
    {
    }

    /// A session without objects.
    pub fn new() -> (w: World)
        ensures
            w.wf(),
            w@.len() == 0,
    {
        World { objects: Vec::new() }
    }

    /// Number of objects ever spawned.
    pub fn len(&self) -> (n: usize)
        ensures
            n == self@.len(),
    {
        self.objects.len()
    }

    /// Whether `e` is an object of this session.
    pub fn contains(&self, e: Entity) -> (b: bool)
        ensures
            b == self@.contains(e),
    {
        e.index < self.objects.len()
    }

    /// The data attached to `e`, if `e` is an object of this session.
    pub fn data(&self, e: Entity) -> (data: Option<&Component>)
        requires
            self.wf(),
        ensures
            data.is_some() == self@.contains(e),
            data matches Some(c) ==> c@ == self@.data(e) && c.wf(),
    {
        if e.index < self.objects.len() {
            Some(&self.objects[e.index].data)
        } else {
            None
        }
    }

    /// The children of `e` in the order in which they were added, if `e` is
    /// an object of this session.
    pub fn children(&self, e: Entity) -> (children: Option<&Vec<Entity>>)
        ensures
            children.is_some() == self@.contains(e),
            children matches Some(c) ==> c@ == self@.children(e),
    {
        if e.index < self.objects.len() {
            Some(&self.objects[e.index].children)
        } else {
            None
        }
    }

    /// The stable id of `e`, if `e` is an object of this session and has
    /// one.
    pub fn save_id(&self, e: Entity) -> (id: Option<SaveId>)
        ensures
            id == if self@.contains(e) {
                self@.save_id(e)
            } else {
                None
            },
    {
        if e.index < self.objects.len() {
            self.objects[e.index].save_id
        } else {
            None
        }
    }

    /// Spawns an object that carries `data` and has no parent.  Returns its
    /// identity.
    pub fn spawn(&mut self, data: Component) -> (e: Entity)
        requires
            old(self).wf(),
            data.wf(),
        ensures
            final(self).wf(),
            e.index == old(self)@.len(),
            final(self)@ == old(self)@.spawn(data@),
    {
        let e = Entity { index: self.objects.len() };
        let ghost before = self@;
        proof {
            data.lemma_wf_view();
        }
        self.objects.push(Object { children: Vec::new(), save_id: None, data });
        proof {
            assert(self@.objects =~= before.spawn(data@).objects);
            lemma_spawn_wf(before, data@);
        }
        e
    }

    /// Appends `child` to the children of `parent`.  Fails, and changes
    /// nothing, where either is not an object of this session; the error
    /// names `parent` where it is the one that is missing, else `child`.
    pub fn add_child(&mut self, parent: Entity, child: Entity) -> (r: Result<(), MapError>)
        requires
            old(self).wf(),
        ensures
            final(self).wf(),
            match r {
                Ok(_) => old(self)@.contains(parent) && old(self)@.contains(child) && final(self)@
                    == old(self)@.with_child(parent, child),
                Err(e) => final(self)@ == old(self)@ && if !old(self)@.contains(parent) {
                    e == MapError::UnknownObject(parent)
                } else {
                    !old(self)@.contains(child) && e == MapError::UnknownObject(child)
                },
            },
    {
        if parent.index >= self.objects.len() {
            return Err(MapError::UnknownObject(parent));
        }
        if child.index >= self.objects.len() {
            return Err(MapError::UnknownObject(child));
        }
        let ghost before = self@;
        self.objects[parent.index].children.push(child);
        proof {
            assert(self@.objects =~= before.with_child(parent, child).objects);
            lemma_with_child_wf(before, parent, child);
        }
        Ok(())
    }

    /// Spawns an object that carries `data` as the last child of `parent`.
    /// Fails with [`MapError::UnknownObject`], and changes nothing, where
    /// `parent` is not an object of this session.
    pub fn spawn_child(&mut self, parent: Entity, data: Component) -> (r: Result<Entity, MapError>)
        requires
            old(self).wf(),
            data.wf(),
        ensures
            final(self).wf(),
            match r {
                Ok(e) => old(self)@.contains(parent) && e.index == old(self)@.len() && final(self)@
                    == old(self)@.spawn_child(parent, data@),
                Err(e) => !old(self)@.contains(parent) && e == MapError::UnknownObject(parent)
                    && final(self)@ == old(self)@,
            },
    {
        if parent.index >= self.objects.len() {
            return Err(MapError::UnknownObject(parent));
        }
        let e = self.spawn(data);
        let ghost middle = self@;
        assert(self.objects@.len() == middle.objects.len());
        self.objects[parent.index].children.push(e);
        proof {
            assert(self@.objects =~= middle.with_child(parent, e).objects);
            lemma_with_child_wf(middle, parent, e);
        }
        Ok(e)
    }

    /// Attaches `data` to `e` in place of what `e` carried.  Fails with
    /// [`MapError::UnknownObject`], and changes nothing, where `e` is not an
    /// object of this session.
    pub fn insert(&mut self, e: Entity, data: Component) -> (r: Result<(), MapError>)
        requires
            old(self).wf(),
            data.wf(),
        ensures
            final(self).wf(),
            match r {
                Ok(_) => old(self)@.contains(e) && final(self)@ == old(self)@.with_data(e, data@),
                Err(err) => !old(self)@.contains(e) && err == MapError::UnknownObject(e)
                    && final(self)@ == old(self)@,
            },
    {
        if e.index >= self.objects.len() {
            return Err(MapError::UnknownObject(e));
        }
        let ghost before = self@;
        proof {
            data.lemma_wf_view();
        }
        self.objects[e.index].data = data;
        proof {
            assert(self@.objects =~= before.with_data(e, data@).objects);
            lemma_with_data_wf(before, e, data@);
        }
        Ok(())
    }

    /// The one map of the session: the object that carries the data of a
    /// map root, and that data.  Fails with [`MapError::NoSingleMap`] where
    /// no object or more than one object carries such data.
    pub fn get_map(&self) -> (r: Result<(Entity, &HexMap), MapError>)
        requires
            self.wf(),
        ensures
            match r {
                Ok((e, map)) => self@.is_single_map(e) && self@.data(e) == ComponentView::MapRoot(
                    map.layout,
                ),
                Err(err) => err == MapError::NoSingleMap && forall|e: Entity|
                    !self@.is_single_map(e),
            },
    {
        let n = self.objects.len();
        let mut found: Option<usize> = None;
        let mut i: usize = 0;
        while i < n
            invariant
                n == self.objects@.len(),
                i <= n,
                match found {
                    Some(f) => f < i && self.objects@[f as int].data@.kind() == Kind::MapRoot
                        && forall|k: int|
                        0 <= k < i && k != f ==> (#[trigger] self.objects@[k]).data@.kind()
                            != Kind::MapRoot,
                    None => forall|k: int|
                        0 <= k < i ==> (#[trigger] self.objects@[k]).data@.kind() != Kind::MapRoot,
                },
            decreases n - i,
        {
            match self.objects[i].data.kind() {
                Kind::MapRoot => {
                    match found {
                        Some(f) => {
                            proof {
                                let a = Entity { index: f };
                                let b = Entity { index: i };
                                assert(self@.is_a(a, Kind::MapRoot));
                                assert(self@.is_a(b, Kind::MapRoot));
                            }
                            return Err(MapError::NoSingleMap);
                        },
                        None => {
                            found = Some(i);
                        },
                    }
                },
                _ => {},
            }
            i += 1;
        }
        match found {
            Some(f) => {
                let e = Entity { index: f };
                proof {
                    assert(self@.is_a(e, Kind::MapRoot));
                    assert forall|other: Entity| #[trigger]
                        self@.is_a(other, Kind::MapRoot) implies other == e by {
                        if other.index != f {
                            assert(self.objects@[other.index as int].data@.kind() != Kind::MapRoot);
                        }
                    }
                }
                match &self.objects[f].data {
                    Component::MapRoot(map) => Ok((e, map)),
                    _ => unreached(),
                }
            },
            None => {
                proof {
                    assert forall|e: Entity| !self@.is_single_map(e) by {
                        if self@.contains(e) {
                            assert(self.objects@[e.index as int].data@.kind() != Kind::MapRoot);
                        }
                    }
                }
                Err(MapError::NoSingleMap)
            },
        }
    }

    /// Gives `e` the stable id `id`, which no object has yet.
    pub(crate) fn give_save_id(&mut self, e: Entity, id: SaveId)
        requires
            old(self).wf(),
            old(self)@.contains(e),
            old(self)@.save_id(e) is None,
            !old(self)@.id_in_use(id),
        ensures
            final(self).wf(),
            final(self)@ == old(self)@.with_save_id(e, id),
    {
        let ghost before = self@;
        self.objects[e.index].save_id = Some(id);
        proof {
            assert(self@.objects =~= before.with_save_id(e, id).objects);
            lemma_with_save_id_wf(before, e, id);
        }
    }

    /// Gives `e` the stable id `id`, as a session does for an object that
    /// was saved before.  An id, once given, stays: the call fails, and
    /// changes nothing, where `e` is not an object of this session, where
    /// `e` already has an id, and where `id` belongs to another object.
    pub fn set_save_id(&mut self, e: Entity, id: SaveId) -> (r: Result<(), MapError>)
        requires
            old(self).wf(),
        ensures
            final(self).wf(),
            match r {
                Ok(_) => {
                    &&& old(self)@.contains(e)
                    &&& old(self)@.save_id(e) is None
                    &&& !old(self)@.id_in_use(id)
                    &&& final(self)@ == old(self)@.with_save_id(e, id)
                },
                Err(err) => {
                    &&& final(self)@ == old(self)@
                    &&& err == if !old(self)@.contains(e) {
                        MapError::UnknownObject(e)
                    } else if old(self)@.save_id(e) is Some {
                        MapError::SaveIdAlreadyAssigned(e)
                    } else {
                        MapError::SaveIdInUse(id)
                    }
                    &&& old(self)@.contains(e) && old(self)@.save_id(e) is None
                        ==> old(self)@.id_in_use(id)
                },
            },
    {
        if e.index >= self.objects.len() {
            return Err(MapError::UnknownObject(e));
        }
        if self.objects[e.index].save_id.is_some() {
            return Err(MapError::SaveIdAlreadyAssigned(e));
        }
        let n = self.objects.len();
        let mut i: usize = 0;
        while i < n
            invariant
                *self == *old(self),
                self.wf(),
                self@.contains(e),
                self@.save_id(e) is None,
                n == self.objects@.len(),
                i <= n,
                forall|k: int| 0 <= k < i ==> (#[trigger] self.objects@[k]).save_id != Some(id),
            decreases n - i,
        {
            match self.objects[i].save_id {
                Some(other) => {
                    if other.0 == id.0 {
                        assert(self@.contains(Entity { index: i }));
                        assert(self@.save_id(Entity { index: i }) == Some(id));
                        return Err(MapError::SaveIdInUse(id));
                    }
                },
                None => {},
            }
            i += 1;
        }
        proof {
            assert forall|other: Entity| self@.contains(other) implies self@.save_id(other)
                != Some(id) by {
                assert(self.objects@[other.index as int].save_id != Some(id));
            }
        }
        self.give_save_id(e, id);
        Ok(())
    }
}

impl WorldView {
    /// Whether some object has the stable id `id`.
    pub open spec fn id_in_use(self, id: SaveId) -> bool {
        exists|other: Entity| self.contains(other) && #[trigger] self.save_id(other) == Some(id)
    }
}

/// Giving an object without a stable id one that is not in use keeps a world
/// well formed.
pub proof fn lemma_with_save_id_wf(w: WorldView, e: Entity, id: SaveId)
    requires
        w.wf(),
        w.contains(e),
        w.save_id(e) is None,
        !w.id_in_use(id),
    ensures
        w.with_save_id(e, id).wf(),
{
    let v = w.with_save_id(e, id);
    assert forall|a: Entity, k: int|
        v.contains(a) && 0 <= k < v.children(a).len() implies v.contains(
        #[trigger] v.children(a)[k],
    ) by {
        assert(w.contains(w.children(a)[k]));
    }
    assert forall|a: Entity, b: Entity|
        v.contains(a) && v.contains(b) && v.save_id(a) is Some && #[trigger] v.save_id(a)
            == #[trigger] v.save_id(b) implies a == b by {
        if a != b {
            if a == e {
                assert(w.save_id(b) == Some(id));
            } else if b == e {
                assert(w.save_id(a) == Some(id));
            } else {
                assert(w.save_id(a) == w.save_id(b));
            }
        }
    }
    assert forall|a: Entity| v.contains(a) implies (#[trigger] v.data(a)).wf() by {
        assert(w.data(a).wf());
    }
}

/// Spawning keeps a world well formed.
pub proof fn lemma_spawn_wf(w: WorldView, data: ComponentView)
    requires
        w.wf(),
        data.wf(),
    ensures
        w.spawn(data).wf(),
{
    let v = w.spawn(data);
    assert forall|e: Entity, k: int|
        v.contains(e) && 0 <= k < v.children(e).len() implies v.contains(
        #[trigger] v.children(e)[k],
    ) by {
        assert(w.contains(e));
        assert(w.contains(w.children(e)[k]));
    }
    assert forall|a: Entity, b: Entity|
        v.contains(a) && v.contains(b) && v.save_id(a) is Some && #[trigger] v.save_id(a)
            == #[trigger] v.save_id(b) implies a == b by {
        assert(w.save_id(a) == w.save_id(b));
    }
    assert forall|e: Entity| v.contains(e) implies (#[trigger] v.data(e)).wf() by {
        if w.contains(e) {
            assert(w.data(e).wf());
        }
    }
}

/// Adding a child that exists keeps a world well formed.
pub proof fn lemma_with_child_wf(w: WorldView, parent: Entity, child: Entity)
    requires
        w.wf(),
        w.contains(parent),
        w.contains(child),
    ensures
        w.with_child(parent, child).wf(),
{
    let v = w.with_child(parent, child);
    assert forall|e: Entity, k: int|
        v.contains(e) && 0 <= k < v.children(e).len() implies v.contains(
        #[trigger] v.children(e)[k],
    ) by {
        if e.index == parent.index && k == w.children(parent).len() {
        } else {
            assert(w.contains(w.children(e)[k]));
        }
    }
    assert forall|a: Entity, b: Entity|
        v.contains(a) && v.contains(b) && v.save_id(a) is Some && #[trigger] v.save_id(a)
            == #[trigger] v.save_id(b) implies a == b by {
        assert(w.save_id(a) == w.save_id(b));
    }
    assert forall|e: Entity| v.contains(e) implies (#[trigger] v.data(e)).wf() by {
        assert(w.data(e).wf());
    }
}

/// Replacing an object's data by well-formed data keeps a world well formed.
pub proof fn lemma_with_data_wf(w: WorldView, e: Entity, data: ComponentView)
    requires
        w.wf(),
        w.contains(e),
        data.wf(),
    ensures
        w.with_data(e, data).wf(),
{
    let v = w.with_data(e, data);
    assert forall|a: Entity, k: int|
        v.contains(a) && 0 <= k < v.children(a).len() implies v.contains(
        #[trigger] v.children(a)[k],
    ) by {
        assert(w.contains(w.children(a)[k]));
    }
    assert forall|a: Entity, b: Entity|
        v.contains(a) && v.contains(b) && v.save_id(a) is Some && #[trigger] v.save_id(a)
            == #[trigger] v.save_id(b) implies a == b by {
        assert(w.save_id(a) == w.save_id(b));
    }
    assert forall|a: Entity| v.contains(a) implies (#[trigger] v.data(a)).wf() by {
        if a != e {
            assert(w.data(a).wf());
        }
    }
}

} // verus!
