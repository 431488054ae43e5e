//! The decisions of a session: which events of the watcher are a save, and
//! what follows a save step by step.

use vstd::prelude::*;

use super::session_file::SessionFile;
use crate::file_io::hash::blake3_digest;

verus! {

/// Something whose file is watched for changes.
pub trait WatcherContext {
    /// The directory to watch.
    spec fn watched(&self) -> Seq<char>;

    /// The file in it whose changes count.
    spec fn watched_file(&self) -> Seq<char>;

    /// The directory to watch: the file's directory and not the file, as
    /// many editors save by renaming a new file over the old.
    fn target(&self) -> (dir: &str)
        ensures
            dir@ == self.watched(),
    ;

    /// The file whose changes count.
    fn target_file(&self) -> (path: &str)
        ensures
            path@ == self.watched_file(),
    ;
}

/// What the watcher saw happen to a file.
#[derive(Clone, Copy, Debug, PartialEq, Eq, Structural)]
pub enum WatchKind {
    /// A file that was open for writing was closed.
    CloseWrite,
    /// A file that was open otherwise was closed.
    CloseOther,
    /// Anything else.
    Other,
}

/// Where the work on a save stands.
#[derive(Clone, Copy, Debug, PartialEq, Eq, Structural)]
pub enum Stage {
    /// Nothing is under way: the next save is waited for.
    Watching,
    /// The plain text is being encrypted back to the source.
    Encrypting,
    /// The file without secrets is being generated.
    Generating,
    /// The flake's lock file is being updated.
    Updating,
    /// A step that must not fail has failed: the session is over.
    Stopped,
}

/// What has happened.
pub enum Event {
    /// The plain text's file was saved, and holds these bytes.
    Saved(Vec<u8>),
    /// The encryption is done, or has failed.
    Encrypted(bool),
    /// The generation is done, or has failed.
    Generated(bool),
    /// The update of the lock file is done, or has failed.
    Updated(bool),
}

/// What is to be done next.
#[derive(Debug)]
pub enum Action {
    /// Wait for the next save.
    Wait,
    /// Encrypt the plain text back to the source.
    Encrypt,
    /// Generate the file without secrets.
    Generate,
    /// Update this input in the flake's lock file.
    Update(String),
    /// Give up, with the error of the step that failed.
    Stop,
}

/// Whether the event is a save of bytes whose digest is the one that is
/// kept.
pub open spec fn unchanged(kept: Option<Seq<u8>>, event: Event) -> bool {
    event matches Event::Saved(bytes) && kept == Some(blake3_digest(bytes@))
}

/// The stage that follows `stage` on an event. `unchanged` says of a save
/// whether the bytes have the digest that was kept before, and `flake`
/// whether a lock file is to be updated after a generation.
pub open spec fn next_stage(stage: Stage, event: Event, unchanged: bool, flake: bool) -> Stage {
    match (stage, event) {
        (Stage::Watching, Event::Saved(_)) => if unchanged {
            Stage::Watching
        } else {
            Stage::Encrypting
        },
        (Stage::Encrypting, Event::Encrypted(true)) => Stage::Generating,
        (Stage::Generating, Event::Generated(true)) => if flake {
            Stage::Updating
        } else {
            Stage::Watching
        },
        (Stage::Generating, Event::Generated(false)) => Stage::Watching,
        (Stage::Updating, Event::Updated(true)) => Stage::Watching,
        _ => Stage::Stopped,
    }
}

/// Whether `action` is what a stage asks for: nothing while the next save is
/// waited for, the step that is under way else.
pub open spec fn asked(stage: Stage, action: Action, flake: Option<Seq<char>>) -> bool {
    match stage {
        Stage::Watching => action is Wait,
        Stage::Encrypting => action is Encrypt,
        Stage::Generating => action is Generate,
        Stage::Updating => action matches Action::Update(input) && flake == Some(input@),
        Stage::Stopped => action is Stop,
    }
}

/// The one who works on the saves of a session's file, one step after the
/// other.
pub struct Worker {
    pub file: SessionFile,
    pub stage: Stage,
}

impl Worker {
    /// A worker that waits for the first save of `file`.
    pub fn new(file: SessionFile) -> (worker: Worker)
        ensures
            worker.file == file,
            worker.stage == Stage::Watching,
    {
        Worker { file, stage: Stage::Watching }
    }

    /// Whether an event of the watcher is a save of the file: a file that
    /// was open for writing was closed, and the file is among those that the
    /// event names.
    pub fn is_save(&self, kind: WatchKind, paths: &[String]) -> (yes: bool)
        ensures
            yes == (kind == WatchKind::CloseWrite && exists|i: int|
                0 <= i < paths@.len() && (#[trigger] paths@[i])@ == self.file.temp_path()),
    {
        match kind {
            WatchKind::CloseWrite => self.file.exists_in(paths),
            _ => false,
        }
    }

    /// Takes note of an event and says what to do next.
    ///
    /// A save whose bytes have the digest that was kept is followed by
    /// nothing. Any other save is followed by the encryption, which must
    /// succeed, then by the generation, which may fail, and after a
    /// generation that succeeded by the update of the lock file, where the
    /// session has one, which must succeed. An event that does not belong to
    /// the step under way ends the session, as a failure does.
    pub fn react(&mut self, event: Event) -> (action: Action)
        ensures
            final(self).file.same_paths(&old(self).file),
            final(self).stage == next_stage(
                old(self).stage,
                event,
                unchanged(old(self).file.digest(), event),
                old(self).file.flake() is Some,
            ),
            asked(final(self).stage, action, old(self).file.flake()),
            event matches Event::Saved(bytes) ==> (old(self).stage == Stage::Watching ==> {
                &&& final(self).file.content() == bytes@
                &&& final(self).file.digest() == Some(blake3_digest(bytes@))
            }),
            !(old(self).stage == Stage::Watching && event is Saved) ==> {
                &&& final(self).file.content() == old(self).file.content()
                &&& final(self).file.digest() == old(self).file.digest()
            },
    {
        match (self.stage, event) {
            (Stage::Watching, Event::Saved(bytes)) => {
                if self.file.renew(bytes) {
                    Action::Wait
                } else {
                    self.stage = Stage::Encrypting;
                    Action::Encrypt
                }
            },
            (Stage::Encrypting, Event::Encrypted(true)) => {
                self.stage = Stage::Generating;
                Action::Generate
            },
            (Stage::Generating, Event::Generated(true)) => {
                match self.file.flake_input() {
                    Some(input) => {
                        self.stage = Stage::Updating;
                        Action::Update(input)
                    },
                    None => {
                        self.stage = Stage::Watching;
                        Action::Wait
                    },
                }
            },
            (Stage::Generating, Event::Generated(false)) => {
                self.stage = Stage::Watching;
                Action::Wait
            },
            (Stage::Updating, Event::Updated(true)) => {
                self.stage = Stage::Watching;
                Action::Wait
            },
            _ => {
                self.stage = Stage::Stopped;
                Action::Stop
            },
        }
    }
}

/// A save that changes nothing is followed by nothing: where the worker
/// waits and the bytes saved have the digest that is kept, the worker goes
/// on waiting, and neither encryption nor generation is asked for.
pub proof fn lemma_unchanged_save(
    kept: Option<Seq<u8>>,
    event: Event,
    flake: Option<Seq<char>>,
    action: Action,
)
    requires
        unchanged(kept, event),
        asked(next_stage(Stage::Watching, event, unchanged(kept, event), flake is Some), action, flake),
    ensures
        next_stage(Stage::Watching, event, unchanged(kept, event), flake is Some) == Stage::Watching,
        action is Wait,
{
}

/// Encryption comes only after a save that changed the content, and
/// generation only after an encryption that succeeded.
pub proof fn lemma_steps_in_turn(stage: Stage, event: Event, same: bool, flake: bool)
    ensures
        next_stage(stage, event, same, flake) == Stage::Encrypting ==> stage == Stage::Watching
            && event is Saved && !same,
        next_stage(stage, event, same, flake) == Stage::Generating ==> stage == Stage::Encrypting
            && event == Event::Encrypted(true),
        next_stage(stage, event, same, flake) == Stage::Updating ==> stage == Stage::Generating
            && event == Event::Generated(true) && flake,
{
}

} // verus!
