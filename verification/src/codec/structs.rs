//! Records carried inside messages.
use vstd::prelude::*;

verus! {

/// A shared file as a search reply lists it.
#[derive(Clone, Debug, PartialEq, Eq)]
pub struct FileEntry {
    pub filename: String,
    pub size: u64,
    pub ext: String,
    pub attrs: Vec<u32>,
}

/// A file entry with its strings and attributes as mathematical sequences.
pub struct SpecFileEntry {
    pub filename: Seq<char>,
    pub size: u64,
    pub ext: Seq<char>,
    pub attrs: Seq<u32>,
}

impl View for FileEntry {
    type V = SpecFileEntry;

    open spec fn view(&self) -> SpecFileEntry {
        SpecFileEntry { filename: self.filename@, size: self.size, ext: self.ext@, attrs: self.attrs@ }
    }
}

/// The views of a list of entries.
pub open spec fn entries_view(v: Seq<FileEntry>) -> Seq<SpecFileEntry> {
    v.map_values(|e: FileEntry| e@)
}

} // verus!
