//! Tilesets: named registries of tiles with a stable display order.
//!
//! A tileset keeps its tiles in a map keyed by [`TileId`] and, beside it, the
//! order in which they are shown and written to a file.  The two are held
//! together by [`Tileset::wf`]: the order lists every key of the map exactly
//! once.

use std::collections::HashMap;
use std::collections::HashSet;
use vstd::prelude::*;
use vstd::std_specs::hash::*;

verus! {

broadcast use vstd::std_specs::hash::group_hash_axioms;

/// Identifier of a tile, unique only within its tileset.
pub type TileId = usize;

/// The one tileset file version this library reads and writes.
pub const TILESET_VERSION: usize = 1;

/// Bit pattern of the single-precision number one.
pub const UNIT_BITS: u32 = 0x3f80_0000;

/// How a tile's model is placed relative to its cell: translation, rotation
/// quaternion and scale, each component held as the IEEE-754 bit pattern of a
/// single-precision number.  The library only carries these values; it never
/// computes with them.
#[derive(Clone, Copy, Debug, PartialEq, Eq, Hash, Structural)]
pub struct Transform {
    pub translation_x: u32,
    pub translation_y: u32,
    pub translation_z: u32,
    pub rotation_x: u32,
    pub rotation_y: u32,
    pub rotation_z: u32,
    pub rotation_w: u32,
    pub scale_x: u32,
    pub scale_y: u32,
    pub scale_z: u32,
}

impl Transform {
    /// The transform that leaves a model where it is: no translation, the
    /// unit quaternion, scale one.
    pub open spec fn identity_value() -> Transform {
        Transform {
            translation_x: 0,
            translation_y: 0,
            translation_z: 0,
            rotation_x: 0,
            rotation_y: 0,
            rotation_z: 0,
            rotation_w: UNIT_BITS,
            scale_x: UNIT_BITS,
            scale_y: UNIT_BITS,
            scale_z: UNIT_BITS,
        }
    }

    /// Returns the identity transform.
    pub fn identity() -> (t: Transform)
        ensures
            t == Transform::identity_value(),
    {
        Transform {
            translation_x: 0,
            translation_y: 0,
            translation_z: 0,
            rotation_x: 0,
            rotation_y: 0,
            rotation_z: 0,
            rotation_w: UNIT_BITS,
            scale_x: UNIT_BITS,
            scale_y: UNIT_BITS,
            scale_z: UNIT_BITS,
        }
    }
}

/// One of the six orientations a placed tile can have, in steps of sixty
/// degrees.
#[derive(Clone, Copy, Debug, PartialEq, Eq, Hash, Structural)]
pub enum TileRotation {
    Zero,
    Clockwise60,
    Clockwise120,
    Clockwise180,
    CounterClockwise120,
    CounterClockwise60,
}

impl TileRotation {
    /// Number of sixty-degree clockwise steps from [`TileRotation::Zero`],
    /// between 0 and 5.
    pub open spec fn steps(self) -> int {
        match self {
            TileRotation::Zero => 0,
            TileRotation::Clockwise60 => 1,
            TileRotation::Clockwise120 => 2,
            TileRotation::Clockwise180 => 3,
            TileRotation::CounterClockwise120 => 4,
            TileRotation::CounterClockwise60 => 5,
        }
    }

    /// The rotation that is `n` clockwise steps from [`TileRotation::Zero`],
    /// for any integer `n`.
    pub open spec fn from_steps(n: int) -> TileRotation {
        let r = n % 6;
        if r == 0 {
            TileRotation::Zero
        } else if r == 1 {
            TileRotation::Clockwise60
        } else if r == 2 {
            TileRotation::Clockwise120
        } else if r == 3 {
            TileRotation::Clockwise180
        } else if r == 4 {
            TileRotation::CounterClockwise120
        } else {
            TileRotation::CounterClockwise60
        }
    }

    /// The rotation one step further clockwise.
    pub fn clockwise(self) -> (r: TileRotation)
        ensures
            r == TileRotation::from_steps(self.steps() + 1),
    {
        match self {
            TileRotation::Zero => TileRotation::Clockwise60,
            TileRotation::Clockwise60 => TileRotation::Clockwise120,
            TileRotation::Clockwise120 => TileRotation::Clockwise180,
            TileRotation::Clockwise180 => TileRotation::CounterClockwise120,
            TileRotation::CounterClockwise120 => TileRotation::CounterClockwise60,
            TileRotation::CounterClockwise60 => TileRotation::Zero,
        }
    }

    /// The rotation one step further counter-clockwise.
    pub fn counter_clockwise(self) -> (r: TileRotation)
        ensures
            r == TileRotation::from_steps(self.steps() - 1),
    {
        match self {
            TileRotation::Zero => TileRotation::CounterClockwise60,
            TileRotation::CounterClockwise60 => TileRotation::CounterClockwise120,
            TileRotation::CounterClockwise120 => TileRotation::Clockwise180,
            TileRotation::Clockwise180 => TileRotation::Clockwise120,
            TileRotation::Clockwise120 => TileRotation::Clockwise60,
            TileRotation::Clockwise60 => TileRotation::Zero,
        }
    }

    /// Stepping is arithmetic modulo six: a rotation is its own step count,
    /// and step counts that differ by a multiple of six name one rotation.
    pub proof fn lemma_steps_round_trip(r: TileRotation, n: int, k: int)
        ensures
            0 <= r.steps() < 6,
            TileRotation::from_steps(r.steps()) == r,
            TileRotation::from_steps(n).steps() == n % 6,
            TileRotation::from_steps(n + 6 * k) == TileRotation::from_steps(n),
    {
        assert((n + 6 * k) % 6 == n % 6) by (nonlinear_arith);
    }

    /// A clockwise step undoes a counter-clockwise step, and the other way
    /// round.
    pub proof fn lemma_steps_are_inverse(r: TileRotation)
        ensures
            TileRotation::from_steps(TileRotation::from_steps(r.steps() + 1).steps() - 1) == r,
            TileRotation::from_steps(TileRotation::from_steps(r.steps() - 1).steps() + 1) == r,
    {
    }

    /// Six steps in either direction lead back to the start.
    pub proof fn lemma_six_steps_are_identity(r: TileRotation)
        ensures
            TileRotation::from_steps(r.steps() + 6) == r,
            TileRotation::from_steps(r.steps() - 6) == r,
    {
    }
}

impl Default for TileRotation {
    /// A freshly placed tile is not rotated.
    fn default() -> (r: TileRotation)
        ensures
            r == TileRotation::Zero,
    {
        TileRotation::Zero
    }
}

/// The orientation of one placed tile.
#[derive(Clone, Copy, Debug, PartialEq, Eq, Hash, Structural)]
pub struct TileTransform {
    pub rotation: TileRotation,
}

impl Default for TileTransform {
    fn default() -> (t: TileTransform)
        ensures
            t.rotation == TileRotation::Zero,
    {
        TileTransform { rotation: TileRotation::Zero }
    }
}

/// One tile of a tileset: where its model comes from and how the model is
/// placed in a cell.
#[derive(Debug, PartialEq, Eq)]
pub struct Tile {
    pub id: TileId,
    pub name: String,
    pub path: String,
    pub transform: Transform,
}

/// What a [`Tile`] holds, as mathematical values.
pub struct TileView {
    pub id: TileId,
    pub name: Seq<char>,
    pub path: Seq<char>,
    pub transform: Transform,
}

impl View for Tile {
    type V = TileView;

    open spec fn view(&self) -> TileView {
        TileView { id: self.id, name: self.name@, path: self.path@, transform: self.transform }
    }
}

impl Clone for Tile {
    fn clone(&self) -> (r: Tile)
        ensures
            r@ == self@,
    {
        Tile {
            id: self.id,
            name: self.name.clone(),
            path: self.path.clone(),
            transform: self.transform,
        }
    }
}

/// The id that the next tile gets when `ids` are the ids in use: one more
/// than the largest of them, or zero when there is none.
pub open spec fn next_free(ids: Seq<TileId>) -> nat
    decreases ids.len(),
{
    if ids.len() == 0 {
        0
    } else {
        let rest = next_free(ids.drop_last());
        if ids.last() >= rest {
            (ids.last() + 1) as nat
        } else {
            rest
        }
    }
}

/// [`next_free`] lies above every id in use and, unless there is none,
/// directly above one of them.
pub proof fn lemma_next_free(ids: Seq<TileId>)
    ensures
        forall|i: int| 0 <= i < ids.len() ==> (#[trigger] ids[i]) < next_free(ids),
        ids.len() == 0 <==> next_free(ids) == 0,
        ids.len() > 0 ==> exists|i: int| 0 <= i < ids.len() && #[trigger] ids[i] + 1 == next_free(ids),
    decreases ids.len(),
{
    if ids.len() > 0 {
        let front = ids.drop_last();
        lemma_next_free(front);
        assert forall|i: int| 0 <= i < ids.len() implies (#[trigger] ids[i]) < next_free(ids) by {
            if i < front.len() {
                assert(ids[i] == front[i]);
            }
        }
        if ids.last() >= next_free(front) {
            assert(ids[ids.len() - 1] + 1 == next_free(ids));
        } else {
            let i = choose|i: int| 0 <= i < front.len() && #[trigger] front[i] + 1 == next_free(front);
            assert(ids[i] == front[i]);
        }
    }
}

/// Sequences with the same elements have the same [`next_free`].
pub proof fn lemma_next_free_of_permutation(a: Seq<TileId>, b: Seq<TileId>)
    requires
        forall|t: TileId| a.contains(t) <==> b.contains(t),
    ensures
        next_free(a) == next_free(b),
{
    lemma_next_free(a);
    lemma_next_free(b);
    if a.len() > 0 {
        let i = choose|i: int| 0 <= i < a.len() && #[trigger] a[i] + 1 == next_free(a);
        assert(a.contains(a[i]));
        let k = choose|k: int| 0 <= k < b.len() && b[k] == a[i];
        assert(b[k] < next_free(b));
        let j = choose|j: int| 0 <= j < b.len() && #[trigger] b[j] + 1 == next_free(b);
        assert(b.contains(b[j]));
        let m = choose|m: int| 0 <= m < a.len() && a[m] == b[j];
        assert(a[m] < next_free(a));
    } else if b.len() > 0 {
        assert(b.contains(b[0]));
    }
}

/// What a [`Tileset`] holds, as mathematical values.
pub struct TilesetView {
    pub name: Seq<char>,
    pub tiles: Map<TileId, TileView>,
    pub tile_order: Seq<TileId>,
}

impl TilesetView {
    /// The order lists every key of the tile map exactly once, and each tile
    /// is stored under its own id.
    pub open spec fn wf(self) -> bool {
        &&& self.tile_order.no_duplicates()
        &&& forall|id: TileId| self.tiles.contains_key(id) <==> self.tile_order.contains(id)
        &&& forall|id: TileId| self.tiles.contains_key(id) ==> (#[trigger] self.tiles[id]).id == id
    }

    /// The id that the next added tile gets.
    pub open spec fn next_id(self) -> nat {
        next_free(self.tile_order)
    }

    /// The empty tileset called `name`.
    pub open spec fn empty(name: Seq<char>) -> TilesetView {
        TilesetView { name, tiles: Map::empty(), tile_order: Seq::empty() }
    }

    /// This tileset with `tile` appended under its id.
    pub open spec fn with_tile(self, tile: TileView) -> TilesetView {
        TilesetView {
            name: self.name,
            tiles: self.tiles.insert(tile.id, tile),
            tile_order: self.tile_order.push(tile.id),
        }
    }

    /// The tiles in display order.
    pub open spec fn ordered_tiles(self) -> Seq<TileView> {
        Seq::new(self.tile_order.len(), |i: int| self.tiles[self.tile_order[i]])
    }
}

/// Appending a tile under an id that is not in use keeps a tileset well
/// formed.
pub proof fn lemma_with_tile_wf(v: TilesetView, tile: TileView)
    requires
        v.wf(),
        !v.tiles.contains_key(tile.id),
    ensures
        v.with_tile(tile).wf(),
{
    let w = v.with_tile(tile);
    assert forall|id: TileId| w.tiles.contains_key(id) <==> w.tile_order.contains(id) by {
        if w.tile_order.contains(id) {
            let i = choose|i: int| 0 <= i < w.tile_order.len() && w.tile_order[i] == id;
            if i < v.tile_order.len() {
                assert(v.tile_order[i] == id);
                assert(v.tile_order.contains(id));
            }
        }
        if w.tiles.contains_key(id) {
            if id == tile.id {
                assert(w.tile_order[v.tile_order.len() as int] == id);
            } else {
                assert(v.tiles.contains_key(id));
                assert(v.tile_order.contains(id));
                let i = choose|i: int| 0 <= i < v.tile_order.len() && v.tile_order[i] == id;
                assert(w.tile_order[i] == id);
            }
        }
    }
    assert forall|i: int, j: int|
        0 <= i < w.tile_order.len() && 0 <= j < w.tile_order.len() && i != j implies w.tile_order[i]
        != w.tile_order[j] by {
        if i == v.tile_order.len() {
            assert(v.tile_order.contains(v.tile_order[j]));
        } else if j == v.tile_order.len() {
            assert(v.tile_order.contains(v.tile_order[i]));
        } else {
            assert(v.tile_order[i] != v.tile_order[j]);
        }
    }
}

/// Why a tileset document is refused.
#[derive(Clone, Copy, Debug, PartialEq, Eq, Structural)]
pub enum TilesetError {
    /// The document's version is not [`TILESET_VERSION`].
    UnsupportedVersion(usize),
    /// The document lists two tiles under this id.
    DuplicateTileId(TileId),
}

/// A tileset as it is written to a file: a version tag, the name, and the
/// tiles in display order.
#[derive(Debug, PartialEq, Eq)]
pub struct TilesetFormat {
    pub version: usize,
    pub name: String,
    pub tiles: Vec<Tile>,
}

/// What a [`TilesetFormat`] holds, as mathematical values.
pub struct TilesetFormatView {
    pub version: usize,
    pub name: Seq<char>,
    pub tiles: Seq<TileView>,
}

impl View for TilesetFormat {
    type V = TilesetFormatView;

    open spec fn view(&self) -> TilesetFormatView {
        TilesetFormatView {
            version: self.version,
            name: self.name@,
            tiles: Seq::new(self.tiles@.len(), |i: int| self.tiles@[i]@),
        }
    }
}

/// Index of the first element of `ids` that repeats an earlier one, if any
/// does.
pub open spec fn first_repeat(ids: Seq<TileId>) -> Option<int>
    decreases ids.len(),
{
    if ids.len() == 0 {
        None
    } else {
        match first_repeat(ids.drop_last()) {
            Some(j) => Some(j),
            None => if ids.drop_last().contains(ids.last()) {
                Some(ids.len() - 1)
            } else {
                None
            },
        }
    }
}

/// [`first_repeat`] finds nothing exactly in a sequence without duplicates;
/// what it finds is an index whose element occurs before it, while nothing
/// before that index repeats.
pub proof fn lemma_first_repeat(ids: Seq<TileId>)
    ensures
        first_repeat(ids) is None <==> ids.no_duplicates(),
        first_repeat(ids) matches Some(j) ==> 0 <= j < ids.len() && ids.take(j).contains(ids[j])
            && ids.take(j).no_duplicates(),
    decreases ids.len(),
{
    if ids.len() > 0 {
        let front = ids.drop_last();
        lemma_first_repeat(front);
        match first_repeat(front) {
            Some(j) => {
                assert(front.take(j) =~= ids.take(j));
                let i = choose|i: int| 0 <= i < j && front.take(j)[i] == front[j];
                assert(ids[i] == ids[j]);
            },
            None => {
                if front.contains(ids.last()) {
                    let i = choose|i: int| 0 <= i < front.len() && front[i] == ids.last();
                    assert(ids[i] == ids[ids.len() - 1]);
                    assert(ids.take(ids.len() - 1) =~= front);
                } else {
                    assert forall|i: int, j: int|
                        0 <= i < ids.len() && 0 <= j < ids.len() && i != j implies ids[i]
                        != ids[j] by {
                        if i == ids.len() - 1 {
                            assert(front[j] == ids[j]);
                        } else if j == ids.len() - 1 {
                            assert(front[i] == ids[i]);
                        } else {
                            assert(front[i] != front[j]);
                        }
                    }
                }
            },
        }
    }
}

/// A repeat found in a prefix is the first repeat of the whole sequence.
pub proof fn lemma_first_repeat_prefix(ids: Seq<TileId>, k: int)
    requires
        0 <= k <= ids.len(),
        first_repeat(ids.take(k)) is Some,
    ensures
        first_repeat(ids) == first_repeat(ids.take(k)),
    decreases ids.len() - k,
{
    if k < ids.len() {
        assert(ids.take(k + 1).drop_last() =~= ids.take(k));
        lemma_first_repeat_prefix(ids, k + 1);
    } else {
        assert(ids.take(k) =~= ids);
    }
}

impl TilesetFormatView {
    /// The ids of the listed tiles, in document order.
    pub open spec fn ids(self) -> Seq<TileId> {
        Seq::new(self.tiles.len(), |i: int| self.tiles[i].id)
    }

    /// The tileset that this document describes: its tiles in document
    /// order.  A document of another version, or one that lists an id twice,
    /// describes none.
    pub open spec fn tileset(self) -> Result<TilesetView, TilesetError> {
        if self.version != TILESET_VERSION {
            Err(TilesetError::UnsupportedVersion(self.version))
        } else {
            match first_repeat(self.ids()) {
                Some(j) => Err(TilesetError::DuplicateTileId(self.ids()[j])),
                None => Ok(
                    TilesetView {
                        name: self.name,
                        tiles: Map::new(
                            |id: TileId| self.ids().contains(id),
                            |id: TileId| self.tiles[self.ids().index_of(id)],
                        ),
                        tile_order: self.ids(),
                    },
                ),
            }
        }
    }
}

impl TilesetView {
    /// The document that describes this tileset.
    pub open spec fn document(self) -> TilesetFormatView {
        TilesetFormatView {
            version: TILESET_VERSION,
            name: self.name,
            tiles: self.ordered_tiles(),
        }
    }

    /// Writing a tileset to a document and reading the document back gives
    /// the same tileset: same name, same tiles, same display order.
    pub proof fn lemma_document_round_trip(self)
        requires
            self.wf(),
        ensures
            self.document().tileset() == Ok::<TilesetView, TilesetError>(self),
    {
        let d = self.document();
        assert(d.ids() =~= self.tile_order) by {
            assert forall|i: int| 0 <= i < self.tile_order.len() implies d.ids()[i]
                == self.tile_order[i] by {
                assert(self.tile_order.contains(self.tile_order[i]));
            }
        }
        lemma_first_repeat(d.ids());
        let t = d.tileset()->Ok_0;
        assert(t.tiles =~= self.tiles) by {
            assert forall|id: TileId| t.tiles.contains_key(id) implies t.tiles[id]
                == self.tiles[id] by {
                let i = d.ids().index_of(id);
                assert(d.ids()[i] == id);
            }
        }
    }
}

impl TilesetFormatView {
    /// A document that describes a tileset describes a well-formed one, and
    /// that tileset's document is the document itself.
    pub proof fn lemma_tileset_round_trip(self)
        requires
            self.tileset() is Ok,
        ensures
            self.tileset()->Ok_0.wf(),
            self.tileset()->Ok_0.document() == self,
    {
        let t = self.tileset()->Ok_0;
        let ids = self.ids();
        lemma_first_repeat(ids);
        assert forall|id: TileId| t.tiles.contains_key(id) implies (#[trigger] t.tiles[id]).id
            == id by {
            let i = ids.index_of(id);
            assert(ids[i] == id);
        }
        assert(t.document().tiles =~= self.tiles) by {
            assert forall|i: int| 0 <= i < self.tiles.len() implies t.document().tiles[i]
                == self.tiles[i] by {
                assert(ids.contains(ids[i]));
                let k = ids.index_of(ids[i]);
                assert(ids[k] == ids[i]);
                assert(k == i);
            }
        }
    }
}

/// The elements of `order` that are not among `ids`, in their order.
pub open spec fn without(order: Seq<TileId>, ids: Seq<TileId>) -> Seq<TileId>
    decreases order.len(),
{
    if order.len() == 0 {
        order
    } else {
        let rest = without(order.drop_last(), ids);
        if ids.contains(order.last()) {
            rest
        } else {
            rest.push(order.last())
        }
    }
}

/// The elements of `ids` that occur in `order`, each once, in the order in
/// which `ids` first names them.
pub open spec fn moved_block(order: Seq<TileId>, ids: Seq<TileId>) -> Seq<TileId>
    decreases ids.len(),
{
    if ids.len() == 0 {
        ids
    } else {
        let rest = moved_block(order, ids.drop_last());
        if order.contains(ids.last()) && !ids.drop_last().contains(ids.last()) {
            rest.push(ids.last())
        } else {
            rest
        }
    }
}

/// `order` after the tiles named by `ids` have been taken out and put back
/// as one block in front of what stood at index `at`: first the tiles before
/// `at` that stay, then the block, then the tiles from `at` on that stay.  An
/// `at` beyond the end means the end.
pub open spec fn reordered(order: Seq<TileId>, ids: Seq<TileId>, at: int) -> Seq<TileId> {
    let at = if at > order.len() {
        order.len() as int
    } else if at < 0 {
        0
    } else {
        at
    };
    without(order.take(at), ids) + moved_block(order, ids) + without(order.skip(at), ids)
}

/// [`without`] keeps exactly the elements that are not among `ids`, and
/// keeps them distinct.
pub proof fn lemma_without(order: Seq<TileId>, ids: Seq<TileId>)
    ensures
        forall|t: TileId| #[trigger]
            without(order, ids).contains(t) <==> order.contains(t) && !ids.contains(t),
        order.no_duplicates() ==> without(order, ids).no_duplicates(),
    decreases order.len(),
{
    let out = without(order, ids);
    if order.len() > 0 {
        let front = order.drop_last();
        let rest = without(front, ids);
        let last = order.last();
        lemma_without(front, ids);
        assert forall|t: TileId| #[trigger] out.contains(t) <==> order.contains(t) && !ids.contains(
            t,
        ) by {
            if out.contains(t) {
                let i = choose|i: int| 0 <= i < out.len() && out[i] == t;
                if i < rest.len() {
                    assert(rest[i] == t);
                    assert(rest.contains(t));
                    let k = choose|k: int| 0 <= k < front.len() && front[k] == t;
                    assert(order[k] == t);
                } else {
                    assert(order[order.len() - 1] == t);
                }
            }
            if order.contains(t) && !ids.contains(t) {
                let k = choose|k: int| 0 <= k < order.len() && order[k] == t;
                if k < front.len() {
                    assert(front[k] == t);
                    assert(front.contains(t));
                    assert(rest.contains(t));
                    let i = choose|i: int| 0 <= i < rest.len() && rest[i] == t;
                    assert(out[i] == t);
                } else {
                    assert(out[rest.len() as int] == t);
                }
            }
        }
        if order.no_duplicates() {
            assert(front.no_duplicates());
            if !ids.contains(last) {
                assert(!rest.contains(last)) by {
                    if front.contains(last) {
                        let k = choose|k: int| 0 <= k < front.len() && front[k] == last;
                        assert(order[k] == order[order.len() - 1]);
                    }
                }
                assert forall|i: int, j: int|
                    0 <= i < out.len() && 0 <= j < out.len() && i != j implies out[i]
                    != out[j] by {
                    if i < rest.len() {
                        assert(rest.contains(rest[i]));
                    }
                    if j < rest.len() {
                        assert(rest.contains(rest[j]));
                    }
                }
            }
        }
    }
}

/// [`moved_block`] holds exactly the elements of `ids` that occur in
/// `order`, each once.
pub proof fn lemma_moved_block(order: Seq<TileId>, ids: Seq<TileId>)
    ensures
        forall|t: TileId| #[trigger]
            moved_block(order, ids).contains(t) <==> order.contains(t) && ids.contains(t),
        moved_block(order, ids).no_duplicates(),
    decreases ids.len(),
{
    let out = moved_block(order, ids);
    if ids.len() > 0 {
        let front = ids.drop_last();
        let rest = moved_block(order, front);
        let last = ids.last();
        lemma_moved_block(order, front);
        assert forall|t: TileId| #[trigger] out.contains(t) <==> order.contains(t) && ids.contains(
            t,
        ) by {
            if out.contains(t) {
                let i = choose|i: int| 0 <= i < out.len() && out[i] == t;
                if i < rest.len() {
                    assert(rest[i] == t);
                    assert(rest.contains(t));
                    let k = choose|k: int| 0 <= k < front.len() && front[k] == t;
                    assert(ids[k] == t);
                } else {
                    assert(ids[ids.len() - 1] == t);
                }
            }
            if order.contains(t) && ids.contains(t) {
                let k = choose|k: int| 0 <= k < ids.len() && ids[k] == t;
                if k < front.len() {
                    assert(front[k] == t);
                    assert(front.contains(t));
                    assert(rest.contains(t));
                    let i = choose|i: int| 0 <= i < rest.len() && rest[i] == t;
                    assert(out[i] == t);
                } else if front.contains(t) {
                    assert(rest.contains(t));
                    let i = choose|i: int| 0 <= i < rest.len() && rest[i] == t;
                    assert(out[i] == t);
                } else {
                    assert(out[rest.len() as int] == t);
                }
            }
        }
        if order.contains(last) && !front.contains(last) {
            assert(!rest.contains(last));
            assert forall|i: int, j: int|
                0 <= i < out.len() && 0 <= j < out.len() && i != j implies out[i] != out[j] by {
                if i < rest.len() {
                    assert(rest.contains(rest[i]));
                }
                if j < rest.len() {
                    assert(rest.contains(rest[j]));
                }
            }
        }
    }
}

/// Reordering permutes: the result lists the same tiles as `order`, and
/// lists none twice when `order` does not.
pub proof fn lemma_reordered_permutes(order: Seq<TileId>, ids: Seq<TileId>, at: int)
    requires
        order.no_duplicates(),
    ensures
        reordered(order, ids, at).no_duplicates(),
        forall|t: TileId| #[trigger] reordered(order, ids, at).contains(t) <==> order.contains(t),
{
    let at = if at > order.len() {
        order.len() as int
    } else if at < 0 {
        0
    } else {
        at
    };
    let head = order.take(at);
    let tail = order.skip(at);
    let a = without(head, ids);
    let b = moved_block(order, ids);
    let c = without(tail, ids);
    let out = reordered(order, ids, at);
    assert(out == a + b + c);
    lemma_without(head, ids);
    lemma_without(tail, ids);
    lemma_moved_block(order, ids);
    assert(head.no_duplicates());
    assert(tail.no_duplicates());
    assert forall|t: TileId| head.contains(t) implies order.contains(t) && !tail.contains(t) by {
        let i = choose|i: int| 0 <= i < head.len() && head[i] == t;
        assert(order[i] == t);
        if tail.contains(t) {
            let j = choose|j: int| 0 <= j < tail.len() && tail[j] == t;
            assert(order[at + j] == t);
        }
    }
    assert forall|t: TileId| tail.contains(t) implies order.contains(t) by {
        let j = choose|j: int| 0 <= j < tail.len() && tail[j] == t;
        assert(order[at + j] == t);
    }
    assert forall|t: TileId| order.contains(t) implies head.contains(t) || tail.contains(t) by {
        let i = choose|i: int| 0 <= i < order.len() && order[i] == t;
        if i < at {
            assert(head[i] == t);
        } else {
            assert(tail[i - at] == t);
        }
    }
    assert forall|t: TileId| #[trigger] out.contains(t) <==> order.contains(t) by {
        if out.contains(t) {
            let i = choose|i: int| 0 <= i < out.len() && out[i] == t;
            if i < a.len() {
                assert(a[i] == t);
                assert(a.contains(t));
            } else if i < a.len() + b.len() {
                assert(b[i - a.len()] == t);
                assert(b.contains(t));
            } else {
                assert(c[i - a.len() - b.len()] == t);
                assert(c.contains(t));
            }
        }
        if order.contains(t) {
            if ids.contains(t) {
                assert(b.contains(t));
                let i = choose|i: int| 0 <= i < b.len() && b[i] == t;
                assert(out[a.len() + i] == t);
            } else if head.contains(t) {
                assert(a.contains(t));
                let i = choose|i: int| 0 <= i < a.len() && a[i] == t;
                assert(out[i] == t);
            } else {
                assert(c.contains(t));
                let i = choose|i: int| 0 <= i < c.len() && c[i] == t;
                assert(out[a.len() + b.len() + i] == t);
            }
        }
    }
    assert forall|i: int, j: int| 0 <= i < j < out.len() implies out[i] != out[j] by {
        let x = out[i];
        let y = out[j];
        if i < a.len() {
            assert(a[i] == x);
            assert(a.contains(x));
            if j < a.len() {
                assert(a[j] == y);
            } else if j < a.len() + b.len() {
                assert(b[j - a.len()] == y);
                assert(b.contains(y));
            } else {
                assert(c[j - a.len() - b.len()] == y);
                assert(c.contains(y));
            }
        } else if i < a.len() + b.len() {
            assert(b[i - a.len()] == x);
            assert(b.contains(x));
            if j < a.len() + b.len() {
                assert(b[j - a.len()] == y);
            } else {
                assert(c[j - a.len() - b.len()] == y);
                assert(c.contains(y));
            }
        } else {
            assert(c[i - a.len() - b.len()] == x);
            assert(c[j - a.len() - b.len()] == y);
        }
    }
}

/// The views of the tiles of a map.
pub open spec fn tile_views(tiles: Map<TileId, Tile>) -> Map<TileId, TileView> {
    tiles.map_values(|t: Tile| t@)
}

/// A named collection of tiles.  Tiles are found by id; `tile_order` is the
/// order in which they are shown and persisted.
#[derive(Debug)]
pub struct Tileset {
    name: String,
    tiles: HashMap<TileId, Tile>,
    tile_order: Vec<TileId>,
    highest: Option<TileId>,
}

impl View for Tileset {
    type V = TilesetView;

    closed spec fn view(&self) -> TilesetView {
        TilesetView {
            name: self.name@,
            tiles: tile_views(self.tiles@),
            tile_order: self.tile_order@,
        }
    }
}

impl Tileset {
    /// The representation invariant: the view is well formed and the stored
    /// counter agrees with the ids in use.
    pub closed spec fn wf(&self) -> bool {
        &&& self@.wf()
        &&& match self.highest {
            Some(h) => next_free(self.tile_order@) == h + 1,
            None => self.tile_order@.len() == 0,
        }
    }

    /// A well-formed tileset has a well-formed view.
    pub proof fn lemma_wf_view(&self)
        requires
            self.wf(),
        ensures
            self@.wf(),
    {
    }

    /// An empty tileset called `name`.
    pub fn new(name: &str) -> (t: Tileset)
        ensures
            t.wf(),
            t@ == TilesetView::empty(name@),
    {
        let t = Tileset {
            name: name.to_owned(),
            tiles: HashMap::new(),
            tile_order: Vec::new(),
            highest: None,
        };
        assert(tile_views(t.tiles@) =~= Map::<TileId, TileView>::empty());
        t
    }

    /// The tileset's name.
    pub fn name(&self) -> (n: &String)
        ensures
            n@ == self@.name,
    {
        &self.name
    }

    /// The tile ids in display order.
    pub fn tile_order(&self) -> (order: &Vec<TileId>)
        ensures
            order@ == self@.tile_order,
    {
        &self.tile_order
    }

    /// Number of tiles.
    pub fn len(&self) -> (n: usize)
        ensures
            n == self@.tile_order.len(),
    {
        self.tile_order.len()
    }

    /// Whether the tileset has a tile with this id.
    pub fn contains(&self, id: TileId) -> (b: bool)
        ensures
            b == self@.tiles.contains_key(id),
    {
        self.tiles.contains_key(&id)
    }

    /// The tile with this id, if there is one.
    pub fn get(&self, id: TileId) -> (tile: Option<&Tile>)
        ensures
            tile.is_some() == self@.tiles.contains_key(id),
            tile matches Some(t) ==> t@ == self@.tiles[id],
    {
        self.tiles.get(&id)
    }

    /// Appends a tile called `name` whose model is at `path`, under the next
    /// unused id, with the identity transform.  Returns the id.
    pub fn add_named_tile(&mut self, name: String, path: String) -> (id: TileId)
        requires
            old(self).wf(),
            old(self)@.next_id() <= usize::MAX,
        ensures
            final(self).wf(),
            id == old(self)@.next_id(),
            final(self)@ == old(self)@.with_tile(
                TileView { id, name: name@, path: path@, transform: Transform::identity_value() },
            ),
    {
        let id: TileId = match self.highest {
            Some(h) => h + 1,
            None => 0,
        };
        let tile = Tile { id, name, path, transform: Transform::identity() };
        let ghost before = self@;
        proof {
            lemma_next_free(self.tile_order@);
            assert(!self.tile_order@.contains(id));
            assert(self.tile_order@.push(id).drop_last() =~= self.tile_order@);
            assert(tile_views(self.tiles@.insert(id, tile)) =~= tile_views(self.tiles@).insert(
                id,
                tile@,
            ));
        }
        self.tile_order.push(id);
        self.tiles.insert(id, tile);
        self.highest = Some(id);
        proof {
            lemma_with_tile_wf(before, tile@);
        }
        id
    }

    /// Appends a tile for the model at `path`, named after the file stem of
    /// the path, under the next unused id, with the identity transform.
    /// Returns the id.  A path without a file name gives a tile with an empty
    /// name.
    pub fn add_tile(&mut self, path: String) -> (id: TileId)
        requires
            old(self).wf(),
            old(self)@.next_id() <= usize::MAX,
        ensures
            final(self).wf(),
            id == old(self)@.next_id(),
            final(self)@ == old(self)@.with_tile(
                TileView {
                    id,
                    name: final(self)@.tiles[id].name,
                    path: path@,
                    transform: Transform::identity_value(),
                },
            ),
    {
        let name = match file_stem(&path) {
            Some(stem) => stem,
            None => String::new(),
        };
        self.add_named_tile(name, path)
    }

    /// Replaces the placement transform of the tile `id`.  Returns whether
    /// there is such a tile; without one nothing changes.
    pub fn set_transform(&mut self, id: TileId, transform: Transform) -> (found: bool)
        requires
            old(self).wf(),
        ensures
            final(self).wf(),
            found == old(self)@.tiles.contains_key(id),
            found ==> final(self)@ == (TilesetView {
                tiles: old(self)@.tiles.insert(
                    id,
                    TileView { transform, ..old(self)@.tiles[id] },
                ),
                ..old(self)@
            }),
            !found ==> final(self)@ == old(self)@,
    {
        let replacement = match self.tiles.get(&id) {
            Some(tile) => Some(
                Tile { id: tile.id, name: tile.name.clone(), path: tile.path.clone(), transform },
            ),
            None => None,
        };
        match replacement {
            Some(tile) => {
                proof {
                    assert(tile_views(self.tiles@.insert(id, tile)) =~= tile_views(
                        self.tiles@,
                    ).insert(id, tile@));
                }
                self.tiles.insert(id, tile);
                true
            },
            None => false,
        }
    }
}

impl Tileset {
    /// The document that describes this tileset: the supported version, the
    /// name, and the tiles in display order.
    pub fn to_document(&self) -> (doc: TilesetFormat)
        requires
            self.wf(),
        ensures
            doc@ == self@.document(),
    {
        let mut tiles: Vec<Tile> = Vec::new();
        let n = self.tile_order.len();
        let mut i: usize = 0;
        while i < n
            invariant
                self.wf(),
                n == self.tile_order@.len(),
                i <= n,
                tiles@.len() == i,
                forall|k: int| 0 <= k < i ==> (#[trigger] tiles@[k])@ == self@.ordered_tiles()[k],
            decreases n - i,
        {
            let id = self.tile_order[i];
            assert(self@.tile_order.contains(id));
            match self.tiles.get(&id) {
                Some(tile) => {
                    tiles.push(tile.clone());
                },
                None => {
                    assert(false);
                },
            }
            i += 1;
        }
        let doc = TilesetFormat { version: TILESET_VERSION, name: self.name.clone(), tiles };
        assert(doc@.tiles =~= self@.ordered_tiles());
        doc
    }

    /// The tileset that `doc` describes, with its tiles in document order.
    /// Fails on a document of another version and on one that lists an id
    /// twice.
    pub fn from_document(doc: &TilesetFormat) -> (r: Result<Tileset, TilesetError>)
        ensures
            r matches Ok(t) ==> t.wf() && doc@.tileset() == Ok::<TilesetView, TilesetError>(t@),
            r matches Err(e) ==> doc@.tileset() == Err::<TilesetView, TilesetError>(e),
    {
        if doc.version != TILESET_VERSION {
            return Err(TilesetError::UnsupportedVersion(doc.version));
        }
        let ghost ids = doc@.ids();
        let mut tiles: HashMap<TileId, Tile> = HashMap::new();
        let mut order: Vec<TileId> = Vec::new();
        let mut highest: Option<TileId> = None;
        let n = doc.tiles.len();
        let mut i: usize = 0;
        proof {
            assert(ids.take(0) =~= Seq::<TileId>::empty());
        }
        while i < n
            invariant
                n == doc.tiles@.len(),
                doc.version == TILESET_VERSION,
                ids == doc@.ids(),
                i <= n,
                order@ == ids.take(i as int),
                first_repeat(ids.take(i as int)) is None,
                forall|id: TileId| tiles@.contains_key(id) <==> ids.take(i as int).contains(id),
                forall|k: int| 0 <= k < i ==> (#[trigger] tiles@[ids[k]])@ == doc@.tiles[k],
                match highest {
                    Some(h) => next_free(order@) == h + 1,
                    None => order@.len() == 0,
                },
            decreases n - i,
        {
            let tile = doc.tiles[i].clone();
            let id = tile.id;
            let ghost prev = ids.take(i as int);
            let ghost next = ids.take(i + 1);
            proof {
                assert(id == ids[i as int]);
                assert(next.drop_last() =~= prev);
                assert(next.last() == id);
            }
            if tiles.contains_key(&id) {
                proof {
                    assert(prev.contains(id));
                    assert(first_repeat(next) == Some(i as int));
                    lemma_first_repeat_prefix(ids, i + 1);
                }
                return Err(TilesetError::DuplicateTileId(id));
            }
            proof {
                assert(!prev.contains(id));
                assert(first_repeat(next) is None);
                assert(prev.push(id).drop_last() =~= prev);
                assert(next_free(prev.push(id)) == if id >= next_free(prev) {
                    (id + 1) as nat
                } else {
                    next_free(prev)
                });
            }
            highest = match highest {
                Some(h) => if id > h {
                    Some(id)
                } else {
                    Some(h)
                },
                None => Some(id),
            };
            proof {
                assert(next =~= prev.push(id));
                assert forall|other: TileId|
                    tiles@.insert(id, tile).contains_key(other) <==> next.contains(other) by {
                    if next.contains(other) {
                        let k = choose|k: int| 0 <= k < next.len() && next[k] == other;
                        if k < i {
                            assert(prev[k] == other);
                        }
                    }
                    if tiles@.contains_key(other) {
                        let k = choose|k: int| 0 <= k < prev.len() && prev[k] == other;
                        assert(next[k] == other);
                    }
                    if other == id {
                        assert(next[i as int] == other);
                    }
                }
                assert forall|k: int| 0 <= k < i + 1 implies (#[trigger] tiles@.insert(
                    id,
                    tile,
                )[ids[k]])@ == doc@.tiles[k] by {
                    if k < i {
                        assert(prev[k] == ids[k]);
                        assert(prev.contains(ids[k]));
                    }
                }
            }
            order.push(id);
            tiles.insert(id, tile);
            i += 1;
        }
        let t = Tileset { name: doc.name.clone(), tiles, tile_order: order, highest };
        proof {
            assert(ids.take(n as int) =~= ids);
            lemma_first_repeat(ids);
            let want = doc@.tileset()->Ok_0;
            assert(t@.tiles =~= want.tiles) by {
                assert forall|id: TileId| want.tiles.contains_key(id) implies t@.tiles[id]
                    == want.tiles[id] by {
                    let k = ids.index_of(id);
                    assert(ids[k] == id);
                }
            }
            doc@.lemma_tileset_round_trip();
        }
        Ok(t)
    }
}

impl Tileset {
    /// Moves the tiles named by `ids` so that they stand together, in the
    /// order in which `ids` names them, in front of the tile that stood at
    /// index `insertion_point`; with `insertion_point` at or beyond the
    /// number of tiles, at the end.  Ids that the tileset does not have, and
    /// repetitions in `ids`, are passed over.  No tile changes its id.
    pub fn reorder(&mut self, ids: &Vec<TileId>, insertion_point: usize)
        requires
            old(self).wf(),
        ensures
            final(self).wf(),
            final(self)@ == (TilesetView {
                tile_order: reordered(old(self)@.tile_order, ids@, insertion_point as int),
                ..old(self)@
            }),
    {
        let ghost order = self.tile_order@;
        let n = self.tile_order.len();
        let at = if insertion_point > n {
            n
        } else {
            insertion_point
        };
        let mut moved: HashSet<TileId> = HashSet::new();
        let mut block: Vec<TileId> = Vec::new();
        let mut i: usize = 0;
        proof {
            assert(ids@.take(0) =~= Seq::<TileId>::empty());
        }
        while i < ids.len()
            invariant
                self.wf(),
                order == self.tile_order@,
                i <= ids.len(),
                block@ == moved_block(order, ids@.take(i as int)),
                forall|t: TileId| #[trigger]
                    moved@.contains(t) <==> order.contains(t) && ids@.take(i as int).contains(t),
            decreases ids.len() - i,
        {
            let id = ids[i];
            let ghost prev = ids@.take(i as int);
            let ghost next = ids@.take(i + 1);
            proof {
                assert(next.drop_last() =~= prev);
                assert(next.last() == id);
                assert(self@.tiles.contains_key(id) <==> order.contains(id));
                assert forall|t: TileId| next.contains(t) <==> prev.contains(t) || t == id by {
                    if next.contains(t) {
                        let k = choose|k: int| 0 <= k < next.len() && next[k] == t;
                        if k < i {
                            assert(prev[k] == t);
                        }
                    }
                    if prev.contains(t) {
                        let k = choose|k: int| 0 <= k < prev.len() && prev[k] == t;
                        assert(next[k] == t);
                    }
                    if t == id {
                        assert(next[i as int] == t);
                    }
                }
            }
            let ghost moved_before = moved@;
            if self.tiles.contains_key(&id) && !moved.contains(&id) {
                moved.insert(id);
                block.push(id);
            }
            proof {
                assert forall|t: TileId| #[trigger]
                    moved@.contains(t) <==> order.contains(t) && next.contains(t) by {
                    assert(moved_before.contains(t) <==> order.contains(t) && prev.contains(t));
                }
            }
            i += 1;
        }
        proof {
            assert(ids@.take(ids@.len() as int) =~= ids@);
            assert forall|t: TileId| #[trigger]
                moved@.contains(t) <==> order.contains(t) && ids@.contains(t) by {
                assert(moved@.contains(t) <==> order.contains(t) && ids@.take(
                    ids@.len() as int,
                ).contains(t));
            }
        }
        let mut out: Vec<TileId> = Vec::new();
        let mut j: usize = 0;
        proof {
            assert(order.take(0) =~= Seq::<TileId>::empty());
        }
        while j < at
            invariant
                order == self.tile_order@,
                n == order.len(),
                at <= n,
                j <= at,
                forall|t: TileId| #[trigger]
                    moved@.contains(t) <==> order.contains(t) && ids@.contains(t),
                out@ == without(order.take(j as int), ids@),
            decreases at - j,
        {
            let t = self.tile_order[j];
            proof {
                assert(order.take(j + 1).drop_last() =~= order.take(j as int));
                assert(order.take(j + 1).last() == t);
                assert(order.contains(t));
            }
            if !moved.contains(&t) {
                out.push(t);
            }
            j += 1;
        }
        let ghost head = out@;
        out.append(&mut block);
        let ghost middle = out@;
        proof {
            assert(order.skip(at as int).take(0) =~= Seq::<TileId>::empty());
            assert(middle + Seq::<TileId>::empty() =~= middle);
        }
        while j < n
            invariant
                order == self.tile_order@,
                n == order.len(),
                at <= j <= n,
                forall|t: TileId| #[trigger]
                    moved@.contains(t) <==> order.contains(t) && ids@.contains(t),
                out@ == middle + without(order.skip(at as int).take(j - at), ids@),
            decreases n - j,
        {
            let t = self.tile_order[j];
            let ghost tail = order.skip(at as int);
            proof {
                assert(tail.take(j + 1 - at).drop_last() =~= tail.take(j - at));
                assert(tail.take(j + 1 - at).last() == t);
                assert(order.contains(t));
                let kept = without(tail.take(j - at), ids@);
                assert((middle + kept).push(t) =~= middle + kept.push(t));
            }
            if !moved.contains(&t) {
                out.push(t);
            }
            j += 1;
        }
        proof {
            let tail = order.skip(at as int);
            assert(tail.take(n - at) =~= tail);
            assert(out@ == reordered(order, ids@, insertion_point as int));
            lemma_reordered_permutes(order, ids@, insertion_point as int);
            lemma_next_free_of_permutation(order, out@);
        }
        self.tile_order = out;
    }
}

impl Clone for Tileset {
    fn clone(&self) -> (r: Tileset)
        ensures
            r@ == self@,
            self.wf() ==> r.wf(),
    {
        let tile_order = self.tile_order.clone();
        assert(tile_order@ =~= self.tile_order@);
        Tileset {
            name: self.name.clone(),
            tiles: self.tiles.clone(),
            tile_order,
            highest: self.highest,
        }
    }
}

/// Wraps `std::path::Path::file_stem`: the file name of `path` without its
/// extension, or `None` where the path has no file name.  Nothing is claimed
/// of the result, since what separates the components of a path depends on
/// the platform.
#[verifier::external_body]
fn file_stem(path: &String) -> (stem: Option<String>) {
    match std::path::Path::new(path.as_str()).file_stem() {
        Some(stem) => Some(stem.to_string_lossy().into_owned()),
        None => None,
    }
}

} // verus!
