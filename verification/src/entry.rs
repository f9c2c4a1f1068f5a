//! Directory entries as the walk sees them.

use vstd::prelude::*;

verus! {

/// The character that marks a hidden entry when its name starts with it.
pub const HIDDEN_MARKER: char = '.';

/// An entry of a directory: where it is, what it is called, and whether it is
/// a directory itself. Anything that is not a directory counts as a file.
#[derive(Debug, Clone, PartialEq, Eq)]
pub struct FileEntry {
    pub path: String,
    pub name: String,
    pub is_dir: bool,
}

/// A `FileEntry` as contracts speak of it.
pub struct EntryView {
    pub path: Seq<char>,
    pub name: Seq<char>,
    pub is_dir: bool,
}

impl View for FileEntry {
    type V = EntryView;

    open spec fn view(&self) -> EntryView {
        EntryView { path: self.path@, name: self.name@, is_dir: self.is_dir }
    }
}

/// Whether an entry called `name` is hidden: its name starts with the marker.
pub open spec fn is_hidden_name(name: Seq<char>) -> bool {
    name.len() > 0 && name[0] == HIDDEN_MARKER
}

impl EntryView {
    /// Whether the walk passes this entry over.
    pub open spec fn hidden(self) -> bool {
        is_hidden_name(self.name)
    }
}

/// The views of `entries`, in their order.
pub open spec fn entry_views(entries: Seq<FileEntry>) -> Seq<EntryView> {
    entries.map_values(|e: FileEntry| e@)
}

/// The entries of `entries` that the walk does not pass over, in their order.
pub open spec fn visible(entries: Seq<EntryView>) -> Seq<EntryView> {
    entries.filter(|e: EntryView| !e.hidden())
}

/// The visible entries of a listing, read from its end: those behind the first
/// entry come before it, and a hidden first entry does not come at all.
pub proof fn lemma_visible_first(first: EntryView, rest: Seq<EntryView>)
    ensures
        visible(seq![first] + rest) == if first.hidden() {
            visible(rest)
        } else {
            seq![first] + visible(rest)
        },
        visible(seq![first] + rest).reverse() == if first.hidden() {
            visible(rest).reverse()
        } else {
            visible(rest).reverse().push(first)
        },
{
    reveal_with_fuel(Seq::filter, 2);
}

/// Tells whether an entry called `name` is hidden.
pub fn is_hidden(name: &str) -> (hidden: bool)
    ensures
        hidden == is_hidden_name(name@),
{
    name.unicode_len() > 0 && name.get_char(0) == HIDDEN_MARKER
}

impl FileEntry {
    /// Makes the entry at `path` that is called `name`.
    pub fn new(path: String, name: String, is_dir: bool) -> (entry: FileEntry)
        ensures
            entry@ == (EntryView { path: path@, name: name@, is_dir }),
    {
        FileEntry { path, name, is_dir }
    }

    /// Tells whether the walk passes this entry over, with all beneath it.
    pub fn is_hidden(&self) -> (hidden: bool)
        ensures
            hidden == self@.hidden(),
    {
        is_hidden(self.name.as_str())
    }
}

} // verus!
