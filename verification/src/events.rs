//! File-change events and the watcher's configuration.

use vstd::prelude::*;

use crate::watch_config::WatchConfig;

verus! {

/// A change seen on the watched tree.
#[derive(Debug, Clone, PartialEq)]
pub enum FileEvent {
    /// A file appeared.
    Created(String),
    /// A file's contents changed.
    Modified(String),
    /// A file went away.
    Deleted(String),
    /// A file moved from the first path to the second.
    Renamed(String, String),
}

impl FileEvent {
    /// The path the event is about; for a rename, the new path.
    pub open spec fn spec_path(self) -> Seq<char> {
        match self {
            FileEvent::Created(p) => p@,
            FileEvent::Modified(p) => p@,
            FileEvent::Deleted(p) => p@,
            FileEvent::Renamed(_, p) => p@,
        }
    }

    /// The path the event is about; for a rename, the new path.
    pub fn path(&self) -> (r: &str)
        ensures
            r@ == self.spec_path(),
    {
        match self {
            FileEvent::Created(p) => p.as_str(),
            FileEvent::Modified(p) => p.as_str(),
            FileEvent::Deleted(p) => p.as_str(),
            FileEvent::Renamed(_, p) => p.as_str(),
        }
    }
}

/// How the file watcher is run.
#[derive(Debug)]
pub struct FileWatcherConfig {
    /// Which files to accept.
    pub watch_config: WatchConfig,
    /// How long duplicate events may be coalesced, in milliseconds.
    pub debounce_ms: u64,
    /// Whether subdirectories are watched too.
    pub recursive: bool,
}

impl Default for FileWatcherConfig {
    /// The default filter, a 100 ms debounce window, recursive watching.
    fn default() -> (r: Self)
        ensures
            r.debounce_ms == 100,
            r.recursive == true,
            r.watch_config.whitelist.deep_view() =~= seq!["*.md"@],
    {
        FileWatcherConfig { watch_config: WatchConfig::new(), debounce_ms: 100, recursive: true }
    }
}

} // verus!
