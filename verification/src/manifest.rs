//! The manifest that stands beside the media files of a folder: one line per
//! track, fields parted by tabs.

use vstd::prelude::*;
use crate::text::{lemma_lines_len, lines_of, split_lines, split_on, split_str};

verus! {

/// The field of a manifest line that holds the track's identifier.
pub const TRACK_FIELD: usize = 0;

/// The field of a manifest line that holds the name of the track's file.
pub const FILE_FIELD: usize = 4;

/// One line of a manifest, cut into its fields.
#[derive(Debug, PartialEq, Eq)]
pub struct SidecarEntry {
    pub fields: Vec<String>,
}

impl DeepView for SidecarEntry {
    type V = Seq<Seq<char>>;

    open spec fn deep_view(&self) -> Seq<Seq<char>> {
        self.fields.deep_view()
    }
}

impl SidecarEntry {
    /// The text that the line gives as the track's identifier.
    pub fn track_id(&self) -> (id: Option<&String>)
        ensures
            match id {
                Some(text) => self.fields@.len() > TRACK_FIELD && text@
                    == self.deep_view()[TRACK_FIELD as int],
                None => self.fields@.len() <= TRACK_FIELD,
            },
    {
        if self.fields.len() > TRACK_FIELD {
            Some(&self.fields[TRACK_FIELD])
        } else {
            None
        }
    }

    /// The text that the line gives as the name of the track's file.
    pub fn file_name(&self) -> (name: Option<&String>)
        ensures
            match name {
                Some(text) => self.fields@.len() > FILE_FIELD && text@
                    == self.deep_view()[FILE_FIELD as int],
                None => self.fields@.len() <= FILE_FIELD,
            },
    {
        if self.fields.len() > FILE_FIELD {
            Some(&self.fields[FILE_FIELD])
        } else {
            None
        }
    }
}

/// The entries of a manifest: its lines, each cut at the tabs. An empty
/// manifest has no entries.
pub open spec fn manifest_entries(body: Seq<char>) -> Seq<Seq<Seq<char>>> {
    Seq::new(lines_of(body).len(), |i: int| split_on(lines_of(body)[i], '\t'))
}

/// A manifest has no more entries than characters.
pub proof fn lemma_manifest_len(body: Seq<char>)
    ensures
        manifest_entries(body).len() <= body.len(),
{
    lemma_lines_len(body);
}

/// Reads the entries of a manifest.
pub fn parse_manifest(body: &str) -> (entries: Vec<SidecarEntry>)
    ensures
        entries.deep_view() == manifest_entries(body@),
{
    let lines = split_lines(body);
    let mut entries: Vec<SidecarEntry> = Vec::new();
    let mut i: usize = 0;
    while i < lines.len()
        invariant
            i <= lines.len(),
            lines.deep_view() == lines_of(body@),
            entries.deep_view() == manifest_entries(body@).take(i as int),
        decreases lines.len() - i,
    {
        let ghost had = entries.deep_view();
        let fields = split_str(lines[i].as_str(), '\t');
        entries.push(SidecarEntry { fields });
        proof {
            assert(lines.deep_view()[i as int] == lines@[i as int]@);
            assert(entries.deep_view() =~= had.push(split_on(lines_of(body@)[i as int], '\t')));
            assert(manifest_entries(body@).take(i + 1) =~= manifest_entries(body@).take(
                i as int,
            ).push(manifest_entries(body@)[i as int]));
        }
        i += 1;
    }
    assert(manifest_entries(body@).take(lines.len() as int) =~= manifest_entries(body@));
    entries
}

} // verus!
