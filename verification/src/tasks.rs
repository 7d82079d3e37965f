//! What to do with a finished background task.
//!
//! Reading, parsing and writing files runs off the interactive thread.  The
//! interactive thread polls each task; this module decides, from what a poll
//! found, what happens to the live session.  A task that has not finished
//! changes nothing; a task that failed changes nothing and is reported; only
//! the value of a task that succeeded is applied, and applied whole.

use crate::persistence::{MapError, MapFormat, SkippedTile};
use crate::tileset::{Tileset, TilesetError, TilesetFormat, TilesetView};
use crate::world::{Component, ComponentView, Entity, World};
use vstd::prelude::*;

verus! {

/// What the owner of a task does after a poll.
#[derive(Debug)]
pub enum TaskAction<T> {
    /// The task is still running: poll again later.
    Wait,
    /// The task produced a value: apply it to the live session.
    Apply(T),
    /// The task failed: report the message and discard what stands for the
    /// task in the session.
    Discard(String),
}

/// What a poll means: none yet is [`TaskAction::Wait`], a value is
/// [`TaskAction::Apply`], an error is [`TaskAction::Discard`].
pub fn next_action<T>(polled: Option<Result<T, String>>) -> (action: TaskAction<T>)
    ensures
        action == match polled {
            None => TaskAction::Wait,
            Some(Ok(value)) => TaskAction::Apply(value),
            Some(Err(message)) => TaskAction::Discard(message),
        },
{
    match polled {
        None => TaskAction::Wait,
        Some(Ok(value)) => TaskAction::Apply(value),
        Some(Err(message)) => TaskAction::Discard(message),
    }
}

/// Why an import came to nothing.
#[derive(Debug)]
pub enum ImportError {
    /// The background task failed to read or parse the file.
    Task(String),
    /// The map document could not be instantiated.
    Instantiate(MapError),
    /// The tileset document was refused.
    Tileset(TilesetError),
}

/// How far an import has come.
#[derive(Debug)]
pub enum Import<T> {
    /// The background task is still running; the session is unchanged.
    Pending,
    /// The document has been applied to the session.
    Loaded(T),
    /// The import failed; the session is unchanged, and the object that
    /// stood for the import is to be discarded.
    Failed(ImportError),
}

/// Takes a map import one step further: where the background task has
/// produced a document, instantiates it under `root`.
///
/// While the task runs, and where the task or the instantiation fails, the
/// session is left as it was.  On success the session holds the whole map,
/// and the tiles that were left out are returned.
pub fn map_importer(
    world: &mut World,
    root: Entity,
    polled: Option<Result<MapFormat, String>>,
) -> (r: Import<Vec<SkippedTile>>)
    requires
        old(world).wf(),
        polled matches Some(Ok(doc)) ==> doc.wf(),
    ensures
        final(world).wf(),
        match polled {
            None => r is Pending && final(world)@ == old(world)@,
            Some(Err(message)) => r == Import::<Vec<SkippedTile>>::Failed(
                ImportError::Task(message),
            ) && final(world)@ == old(world)@,
            Some(Ok(doc)) => match r {
                Import::Pending => false,
                Import::Loaded(skipped) => {
                    &&& doc@.version == crate::persistence::MAP_FORMAT_VERSION
                    &&& old(world)@.contains(root)
                    &&& final(world)@ == old(world)@.instantiated(root, doc@)
                    &&& skipped@ == doc@.skipped(doc@.layers)
                },
                Import::Failed(e) => {
                    &&& final(world)@ == old(world)@
                    &&& doc@.version != crate::persistence::MAP_FORMAT_VERSION || !old(world)@.contains(root)
                    &&& e matches ImportError::Instantiate(cause) && cause == if doc@.version
                        != crate::persistence::MAP_FORMAT_VERSION {
                        MapError::UnsupportedVersion {
                            found: doc@.version,
                            supported: crate::persistence::MAP_FORMAT_VERSION,
                        }
                    } else {
                        MapError::UnknownObject(root)
                    }
                },
            },
        },
{
    match polled {
        None => Import::Pending,
        Some(Err(message)) => Import::Failed(ImportError::Task(message)),
        Some(Ok(doc)) => match doc.try_spawn(world, root) {
            Ok(skipped) => Import::Loaded(skipped),
            Err(e) => Import::Failed(ImportError::Instantiate(e)),
        },
    }
}

/// Takes a tileset import one step further: where the background task has
/// produced a tileset document, builds the tileset and attaches it to
/// `entity`.
///
/// While the task runs, and where the task fails, the document is refused
/// or `entity` is not an object of the session, the session is left as it
/// was.
pub fn tileset_importer(
    world: &mut World,
    entity: Entity,
    polled: Option<Result<TilesetFormat, String>>,
) -> (r: Import<()>)
    requires
        old(world).wf(),
    ensures
        final(world).wf(),
        match polled {
            None => r is Pending && final(world)@ == old(world)@,
            Some(Err(message)) => r == Import::<()>::Failed(ImportError::Task(message)) && final(world)@ == old(world)@,
            Some(Ok(doc)) => match doc@.tileset() {
                Err(e) => r == Import::<()>::Failed(ImportError::Tileset(e)) && final(world)@
                    == old(world)@,
                Ok(tileset) => if old(world)@.contains(entity) {
                    r is Loaded && final(world)@ == old(world)@.with_data(
                        entity,
                        ComponentView::Tileset(tileset),
                    )
                } else {
                    r == Import::<()>::Failed(ImportError::Instantiate(MapError::UnknownObject(entity)))
                        && final(world)@ == old(world)@
                },
            },
        },
{
    match polled {
        None => Import::Pending,
        Some(Err(message)) => Import::Failed(ImportError::Task(message)),
        Some(Ok(doc)) => match Tileset::from_document(&doc) {
            Err(e) => Import::Failed(ImportError::Tileset(e)),
            Ok(tileset) => match world.insert(entity, Component::Tileset(tileset)) {
                Ok(_) => Import::Loaded(()),
                Err(e) => Import::Failed(ImportError::Instantiate(e)),
            },
        },
    }
}

} // verus!
