//! Disk-usage explorer core: entries, aggregation into pie slices, command
//! parsing, layout, rendering, the scan's walk with the proof of what it
//! computes, and the decisions of the full-screen and plain-text explorers.

pub mod aggregator;
pub mod command;
pub mod drive_picker;
pub mod drives;
pub mod event_map;
pub mod render;
pub mod repl;
pub mod scanner;
pub mod text;
pub mod tui;
pub mod walk;

use vstd::prelude::*;

verus! {

/// What a `DiskEntry` stands for.
#[derive(Debug, Clone, Copy, PartialEq, Eq, Structural)]
pub enum EntryKind {
    /// A real directory on disk — drillable.
    Folder,
    /// A regular file — not drillable.
    File,
    /// Synthetic aggregate produced by the aggregator (e.g. "Autres") — not drillable.
    Bucket,
}

/// Something that can name a disk entry: a string slice or an owned string.
pub trait EntryName {
    spec fn name_view(&self) -> Seq<char>;

    fn into_name(self) -> (s: String)
        ensures
            s@ == self.name_view(),
    ;
}

impl<'a> EntryName for &'a str {
    open spec fn name_view(&self) -> Seq<char> {
        (*self)@
    }

    fn into_name(self) -> (s: String) {
        self.to_owned()
    }
}

impl EntryName for String {
    open spec fn name_view(&self) -> Seq<char> {
        self@
    }

    fn into_name(self) -> (s: String) {
        self
    }
}

/// One row of a folder listing: a name, a size in bytes and a kind.
#[derive(Debug, Clone, PartialEq, Eq)]
pub struct DiskEntry {
    pub name: String,
    pub bytes: u64,
    pub kind: EntryKind,
}

impl DiskEntry {
    pub fn folder<N: EntryName>(name: N, bytes: u64) -> (e: Self)
        ensures
            e.name@ == name.name_view(),
            e.bytes == bytes,
            e.kind == EntryKind::Folder,
    {
        Self { name: name.into_name(), bytes, kind: EntryKind::Folder }
    }

    pub fn file<N: EntryName>(name: N, bytes: u64) -> (e: Self)
        ensures
            e.name@ == name.name_view(),
            e.bytes == bytes,
            e.kind == EntryKind::File,
    {
        Self { name: name.into_name(), bytes, kind: EntryKind::File }
    }

    pub fn bucket<N: EntryName>(name: N, bytes: u64) -> (e: Self)
        ensures
            e.name@ == name.name_view(),
            e.bytes == bytes,
            e.kind == EntryKind::Bucket,
    {
        Self { name: name.into_name(), bytes, kind: EntryKind::Bucket }
    }

    /// Only real folders can be drilled into.
    pub fn is_drillable(&self) -> (b: bool)
        ensures
            b == (self.kind == EntryKind::Folder),
    {
        matches!(self.kind, EntryKind::Folder)
    }

    /// A copy of this entry, field for field.
    pub fn duplicate(&self) -> (e: Self)
        ensures
            e == *self,
    {
        DiskEntry { name: self.name.clone(), bytes: self.bytes, kind: self.kind }
    }
}

} // verus!
