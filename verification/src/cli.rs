//! The command line, as plain values.

use vstd::prelude::*;

verus! {

/// The options of a run. Every option may be left out.
#[derive(Debug)]
pub struct Cli {
    /// Source directory to scan, usually `<card>/DCIM`.
    pub source: Option<String>,
    /// In-card destination root, e.g. `/Volumes/SONY/Organized`.
    pub dest: Option<String>,
    /// Compute and print the plan without moving anything.
    pub dry_run: bool,
    /// Copy instead of move (keeps the source files).
    pub copy: bool,
    /// Write relative symbolic links instead of moving or copying bytes.
    pub link: bool,
    /// Organize mode.
    pub mode: Option<ModeArg>,
    /// Categories to organize.
    pub types: Option<Vec<TypeSel>>,
    /// Explicit extension whitelist (overrides `types`).
    pub ext: Option<Vec<String>>,
    /// Destination sub-folder template.
    pub folder_template: Option<String>,
    /// File naming template.
    pub name_template: Option<String>,
    /// Where capture dates come from.
    pub date_source: Option<DateSourceArg>,
    /// What to do with files that have no capture date.
    pub on_missing_date: Option<OnMissingDateArg>,
    /// What to do when the target exists with different content.
    pub on_conflict: Option<OnConflictArg>,
    /// Duplicate detection strategy.
    pub dedup: Option<DedupArg>,
    /// Verification level after a move.
    pub verify: Option<VerifyArg>,
    /// Delete source subfolders left empty (never managed dirs).
    pub clean_empty_dirs: bool,
    /// Journal path (used for resumable runs and `undo`).
    pub journal: Option<String>,
    /// Parallelism.
    pub jobs: Option<usize>,
    /// Per-file result manifest (`.json` or `.csv`).
    pub manifest: Option<String>,
    /// Config file (command-line options override it).
    pub config: Option<String>,
    /// Fixed offset for UTC-sourced video times, e.g. `+08:00`.
    pub tz_offset: Option<String>,
    /// Skip the interactive confirmation.
    pub yes: bool,
    /// Reduce output.
    pub quiet: bool,
    /// Increase output.
    pub verbose: bool,
    pub command: Option<Command>,
}

/// The subcommands.
#[derive(Debug)]
pub enum Command {
    /// Roll back a previous organize run using its journal.
    Undo {
        /// Journal file written by the original run.
        journal: String,
        /// Skip the interactive confirmation.
        yes: bool,
    },
    /// Gather the RAW files of a PixCake project's kept photos.
    Match {
        /// Display name of the project.
        project: String,
        /// Root of the RAW archive.
        raw_src: String,
        /// Directory that receives the RAW files.
        out: String,
        /// PixCake's data directory.
        pixcake_dir: Option<String>,
        /// Copy (default), move or link.
        action: MatchAction,
        /// Print the matches without gathering anything.
        dry_run: bool,
        /// Journal path.
        journal: Option<String>,
        /// Skip the interactive confirmation.
        yes: bool,
    },
}

/// Organize mode.
#[derive(Debug, Clone, Copy, PartialEq, Eq, Structural)]
pub enum ModeArg {
    /// Move stills/clips out of `DCIM` (default).
    Photo,
    /// Copy camera video clips out of managed dirs, keeping originals.
    Video,
}

impl Default for ModeArg {
    fn default() -> (r: ModeArg)
        ensures
            r == ModeArg::Photo,
    {
        ModeArg::Photo
    }
}

/// A category of files to organize.
#[derive(Debug, Clone, Copy, PartialEq, Eq, Structural)]
pub enum TypeSel {
    Raw,
    Jpeg,
    Video,
    All,
}

/// Where capture dates come from.
#[derive(Debug, Clone, Copy, PartialEq, Eq, Structural)]
pub enum DateSourceArg {
    Exif,
    Mtime,
    ExifThenMtime,
}

/// What to do with files that have no capture date.
#[derive(Debug, Clone, Copy, PartialEq, Eq, Structural)]
pub enum OnMissingDateArg {
    Skip,
    Mtime,
    UnknownFolder,
}

/// What to do when the target exists with different content.
#[derive(Debug, Clone, Copy, PartialEq, Eq, Structural)]
pub enum OnConflictArg {
    Rename,
    Skip,
    Overwrite,
}

/// Duplicate detection strategy.
#[derive(Debug, Clone, Copy, PartialEq, Eq, Structural)]
pub enum DedupArg {
    Name,
    Hash,
    Off,
}

/// Verification level after a move.
#[derive(Debug, Clone, Copy, PartialEq, Eq, Structural)]
pub enum VerifyArg {
    Auto,
    Size,
    Hash,
    Off,
}

/// How `match` gathers the RAW files that it found.
#[derive(Debug, Clone, Copy, PartialEq, Eq, Structural)]
pub enum MatchAction {
    Copy,
    Move,
    Link,
}

} // verus!
