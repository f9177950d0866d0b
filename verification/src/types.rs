//! Shared domain types.

use vstd::prelude::*;

use crate::clock::Moment;

verus! {

/// Broad media category derived from the file extension.
#[derive(Debug, Clone, Copy, PartialEq, Eq, Structural)]
pub enum FileKind {
    Raw,
    Jpeg,
    Video,
    /// `.xmp` sidecar: never processed on its own; follows its primary file.
    Sidecar,
}

/// The name of a media category.
pub open spec fn kind_label(k: FileKind) -> Seq<char> {
    match k {
        FileKind::Raw => "raw"@,
        FileKind::Jpeg => "jpeg"@,
        FileKind::Video => "video"@,
        FileKind::Sidecar => "sidecar"@,
    }
}

impl FileKind {
    /// The name of the category.
    pub fn label(self) -> (r: &'static str)
        ensures
            r@ == kind_label(self),
    {
        match self {
            FileKind::Raw => "raw",
            FileKind::Jpeg => "jpeg",
            FileKind::Video => "video",
            FileKind::Sidecar => "sidecar",
        }
    }
}

/// A recognized media file discovered during the scan.
#[derive(Debug, Clone)]
pub struct MediaFile {
    /// Absolute source path.
    pub path: String,
    /// Absolute parent directory.
    pub parent: String,
    /// File name without the final extension.
    pub stem: String,
    /// Extension without the dot, original case (e.g. `ARW`).
    pub ext: String,
    pub kind: FileKind,
    pub size: u64,
    /// Modification time on the local wall clock.
    pub mtime: Option<Moment>,
}

/// The model of a [`MediaFile`].
#[verifier::ext_equal]
pub struct FileModel {
    pub path: Seq<char>,
    pub parent: Seq<char>,
    pub stem: Seq<char>,
    pub ext: Seq<char>,
    pub kind: FileKind,
    pub size: u64,
    pub mtime: Option<Moment>,
}

impl View for MediaFile {
    type V = FileModel;

    open spec fn view(&self) -> FileModel {
        FileModel {
            path: self.path@,
            parent: self.parent@,
            stem: self.stem@,
            ext: self.ext@,
            kind: self.kind,
            size: self.size,
            mtime: self.mtime,
        }
    }
}

impl MediaFile {
    /// A copy of the record.
    pub fn copied(&self) -> (r: MediaFile)
        ensures
            r@ == self@,
    {
        MediaFile {
            path: self.path.clone(),
            parent: self.parent.clone(),
            stem: self.stem.clone(),
            ext: self.ext.clone(),
            kind: self.kind,
            size: self.size,
            mtime: self.mtime,
        }
    }
}

/// Capture metadata extracted from a file (or absent).
#[derive(Debug, Clone)]
pub struct CaptureInfo {
    pub datetime: Option<Moment>,
    pub make: Option<String>,
    pub model: Option<String>,
}

/// The model of a [`CaptureInfo`].
#[verifier::ext_equal]
pub struct InfoModel {
    pub datetime: Option<Moment>,
    pub make: Option<Seq<char>>,
    pub model: Option<Seq<char>>,
}

/// The view of an optional string.
pub open spec fn opt_view(s: Option<String>) -> Option<Seq<char>> {
    match s {
        Some(t) => Some(t@),
        None => None,
    }
}

/// The characters of an optional text, none where it is absent.
pub open spec fn or_empty(s: Option<Seq<char>>) -> Seq<char> {
    match s {
        Some(t) => t,
        None => Seq::empty(),
    }
}

/// A copy of an optional string.
pub fn opt_copy(s: &Option<String>) -> (r: Option<String>)
    ensures
        opt_view(r) == opt_view(*s),
{
    match s {
        Some(t) => Some(t.clone()),
        None => None,
    }
}

impl View for CaptureInfo {
    type V = InfoModel;

    open spec fn view(&self) -> InfoModel {
        InfoModel {
            datetime: self.datetime,
            make: opt_view(self.make),
            model: opt_view(self.model),
        }
    }
}

/// No metadata at all.
pub open spec fn no_info() -> InfoModel {
    InfoModel { datetime: None, make: None, model: None }
}

impl Default for CaptureInfo {
    fn default() -> (r: CaptureInfo)
        ensures
            r@ == no_info(),
    {
        CaptureInfo { datetime: None, make: None, model: None }
    }
}

/// A capture time with millisecond precision: equal keys mean the same shot.
#[derive(Debug, Clone, Copy, PartialEq, Eq, Structural)]
pub struct CaptureKey {
    pub dt: Moment,
    pub subsec_ms: u16,
}

/// Where a planned date ultimately came from.
#[derive(Debug, Clone, Copy, PartialEq, Eq, Structural)]
pub enum DateProvenance {
    Embedded,
    Mtime,
    /// There is no date.
    Absent,
}

/// The decision made for one source file.
#[derive(Debug, Clone, Copy, PartialEq, Eq, Structural)]
pub enum Action {
    /// Atomic move (default).
    Move,
    /// Copy, keeping the source.
    Copy,
    /// Relative symbolic link, keeping the source.
    Link,
    /// Move/copy that overwrites an existing target.
    Overwrite,
    /// Skipped: name/content already present at target.
    SkipDuplicate,
    /// Skipped: target exists with different content (on-conflict=skip).
    SkipConflict,
    /// Skipped: no capture date (on-missing-date=skip).
    SkipNoDate,
}

/// The actions that leave a file alone.
pub open spec fn skips(a: Action) -> bool {
    a == Action::SkipDuplicate || a == Action::SkipConflict || a == Action::SkipNoDate
}

/// The word that the manifest uses for an action.
pub open spec fn action_label(a: Action) -> Seq<char> {
    match a {
        Action::Move => "moved"@,
        Action::Copy => "copied"@,
        Action::Link => "linked"@,
        Action::Overwrite => "overwritten"@,
        Action::SkipDuplicate => "skipped-duplicate"@,
        Action::SkipConflict => "skipped-conflict"@,
        Action::SkipNoDate => "skipped-nodate"@,
    }
}

impl Action {
    /// Whether the file is left alone.
    pub fn is_skip(self) -> (r: bool)
        ensures
            r == skips(self),
    {
        match self {
            Action::SkipDuplicate => true,
            Action::SkipConflict => true,
            Action::SkipNoDate => true,
            _ => false,
        }
    }

    /// The word that the manifest uses for the action.
    pub fn manifest_label(self) -> (r: &'static str)
        ensures
            r@ == action_label(self),
    {
        match self {
            Action::Move => "moved",
            Action::Copy => "copied",
            Action::Link => "linked",
            Action::Overwrite => "overwritten",
            Action::SkipDuplicate => "skipped-duplicate",
            Action::SkipConflict => "skipped-conflict",
            Action::SkipNoDate => "skipped-nodate",
        }
    }
}

/// A fully-decided plan entry for one source file.
#[derive(Debug, Clone)]
pub struct PlanItem {
    pub src: String,
    /// Target path (only meaningful for move/copy/link/overwrite actions).
    pub dst: String,
    pub kind: FileKind,
    pub size: u64,
    pub date: Option<Moment>,
    pub provenance: DateProvenance,
    pub action: Action,
    /// Destination folder relative to `dest`, for reporting.
    pub rel_folder: String,
    /// Human-readable note (reason for skip / conflict resolution).
    pub note: String,
}

/// The model of a [`PlanItem`].
#[verifier::ext_equal]
pub struct ItemModel {
    pub src: Seq<char>,
    pub dst: Seq<char>,
    pub kind: FileKind,
    pub size: u64,
    pub date: Option<Moment>,
    pub provenance: DateProvenance,
    pub action: Action,
    pub rel_folder: Seq<char>,
    pub note: Seq<char>,
}

impl View for PlanItem {
    type V = ItemModel;

    open spec fn view(&self) -> ItemModel {
        ItemModel {
            src: self.src@,
            dst: self.dst@,
            kind: self.kind,
            size: self.size,
            date: self.date,
            provenance: self.provenance,
            action: self.action,
            rel_folder: self.rel_folder@,
            note: self.note@,
        }
    }
}

/// The models of a list of plan items.
pub open spec fn item_models(v: Seq<PlanItem>) -> Seq<ItemModel> {
    Seq::new(v.len(), |i: int| v[i]@)
}

/// The models of a list of media files.
pub open spec fn file_models(v: Seq<MediaFile>) -> Seq<FileModel> {
    Seq::new(v.len(), |i: int| v[i]@)
}

} // verus!
