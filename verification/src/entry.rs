//! What a directory walk reports, and what becomes of it.
//!
//! A walk yields [`WalkItem`]s. The regular files among them that are not
//! hidden become [`FileCandidate`]s, and a candidate with its timestamp
//! resolved is a [`RankedEntry`]. Each type that holds a path has a view in
//! which the path is a sequence of characters.

use vstd::prelude::*;

verus! {

/// Which of a file's timestamps the ranking goes by.
#[derive(Clone, Copy, Debug, PartialEq, Eq, Structural)]
pub enum SortBy {
    Modified,
    Created,
}

/// The kind of a directory entry, as its listing reports it. A symbolic link
/// is a `Symlink` whatever it points at.
#[derive(Clone, Copy, Debug, PartialEq, Eq, Structural)]
pub enum FileKind {
    File,
    Directory,
    Symlink,
    Other,
}

/// One timestamp as read from a file's metadata.
#[derive(Clone, Copy, Debug, PartialEq, Eq, Structural)]
pub enum TimeReading {
    /// The platform or the file system does not offer this timestamp.
    Unavailable,
    /// The timestamp lies before the Unix epoch.
    BeforeEpoch,
    /// Whole seconds since the Unix epoch; parts of a second are dropped.
    At(u64),
}

/// The timestamps of one file.
#[derive(Clone, Copy, Debug, PartialEq, Eq, Structural)]
pub struct FileTimes {
    pub modified: TimeReading,
    pub created: TimeReading,
}

impl FileTimes {
    /// The reading that `sort_by` asks for.
    pub open spec fn reading(self, sort_by: SortBy) -> TimeReading {
        match sort_by {
            SortBy::Modified => self.modified,
            SortBy::Created => self.created,
        }
    }
}

/// A directory entry that the walk could list.
#[derive(Clone, Debug, PartialEq, Eq)]
pub struct WalkEntry {
    /// The path of the entry: the root of the walk, then the names below it.
    pub path: String,
    /// The kind of the entry, or `None` where it could not be determined.
    pub file_type: Option<FileKind>,
    /// For a directory: whether reading its contents failed.
    pub contents_unreadable: bool,
    /// The timestamps of the entry, or `None` where its metadata could not be
    /// read.
    pub metadata: Option<FileTimes>,
}

/// A [`WalkEntry`] with its path as a sequence of characters.
pub struct WalkEntryView {
    pub path: Seq<char>,
    pub file_type: Option<FileKind>,
    pub contents_unreadable: bool,
    pub metadata: Option<FileTimes>,
}

impl View for WalkEntry {
    type V = WalkEntryView;

    open spec fn view(&self) -> WalkEntryView {
        WalkEntryView {
            path: self.path@,
            file_type: self.file_type,
            contents_unreadable: self.contents_unreadable,
            metadata: self.metadata,
        }
    }
}

/// One item of a walk. The first item of a walk stands for its root.
#[derive(Clone, Debug, PartialEq, Eq)]
pub enum WalkItem {
    /// An entry that could not be listed.
    Failed,
    /// An entry that was listed.
    Found(WalkEntry),
}

/// A [`WalkItem`] with its path as a sequence of characters.
pub enum WalkItemView {
    Failed,
    Found(WalkEntryView),
}

impl View for WalkItem {
    type V = WalkItemView;

    open spec fn view(&self) -> WalkItemView {
        match self {
            WalkItem::Failed => WalkItemView::Failed,
            WalkItem::Found(entry) => WalkItemView::Found(entry@),
        }
    }
}

/// A regular file that is not hidden, before its timestamp is resolved.
#[derive(Clone, Debug, PartialEq, Eq)]
pub struct FileCandidate {
    /// The path of the file, as the walk gave it.
    pub path: String,
    /// The timestamps of the file, or `None` where its metadata could not be
    /// read.
    pub metadata: Option<FileTimes>,
}

/// A [`FileCandidate`] with its path as a sequence of characters.
pub struct FileCandidateView {
    pub path: Seq<char>,
    pub metadata: Option<FileTimes>,
}

impl View for FileCandidate {
    type V = FileCandidateView;

    open spec fn view(&self) -> FileCandidateView {
        FileCandidateView { path: self.path@, metadata: self.metadata }
    }
}

/// A file with the timestamp it is ranked by.
#[derive(Clone, Debug, PartialEq, Eq)]
pub struct RankedEntry {
    /// The path of the file, relative to the root of the walk.
    pub path: String,
    /// Seconds since the Unix epoch.
    pub timestamp: u64,
}

/// A [`RankedEntry`] with its path as a sequence of characters.
pub struct RankedEntryView {
    pub path: Seq<char>,
    pub timestamp: u64,
}

impl View for RankedEntry {
    type V = RankedEntryView;

    open spec fn view(&self) -> RankedEntryView {
        RankedEntryView { path: self.path@, timestamp: self.timestamp }
    }
}

/// The views of the elements of `items`, in order.
pub open spec fn views<T: View>(items: Seq<T>) -> Seq<T::V> {
    items.map_values(|item: T| item@)
}

} // verus!
