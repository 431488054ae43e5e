//! An editing session: the file that is edited, and what is done when the
//! editor saves it.

pub mod session;
pub mod session_file;

pub use self::session::{Action, Event, Stage, WatchKind, WatcherContext, Worker};
pub use self::session_file::SessionFile;
