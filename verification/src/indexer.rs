//! The index of paths: which file on disk holds which track, as the manifests
//! of the folders say.

use vstd::prelude::*;
use crate::ids::{is_catalog_id, CatalogKey, InvalidId, TrackId};
use crate::manifest::{
    lemma_manifest_len, manifest_entries, parse_manifest, SidecarEntry, FILE_FIELD, TRACK_FIELD,
};
use crate::keyed::{
    as_map, distinct_keys, key_position, lemma_key_position, lemma_upsert, lookup, upsert,
    KeyedList,
};

verus! {

/// For each track the path of its file. A later path for a track replaces
/// the earlier one.
pub type PathIndex = KeyedList<TrackId, String>;

/// One entry of a folder's listing.
#[derive(Debug)]
pub enum FolderEntry {
    /// A file, with its name in the folder and its full path.
    File { name: String, path: String },
    /// An entry that the file system could not read.
    Unreadable,
}

/// The four counts of the indexing phase.
#[derive(Debug, Clone, Copy, PartialEq, Eq, Structural)]
pub struct IndexCounters {
    /// Manifest entries whose file was found.
    pub resolved: u64,
    /// Manifest entries whose file was not found.
    pub not_found: u64,
    /// Entries that replaced the path of a track that was indexed before.
    pub duplicates: u64,
    /// Failures of the file system.
    pub fs_errors: u64,
}

/// The four counts as numbers without bound.
pub struct Tally {
    pub resolved: nat,
    pub not_found: nat,
    pub duplicates: nat,
    pub fs_errors: nat,
}

impl View for IndexCounters {
    type V = Tally;

    open spec fn view(&self) -> Tally {
        Tally {
            resolved: self.resolved as nat,
            not_found: self.not_found as nat,
            duplicates: self.duplicates as nat,
            fs_errors: self.fs_errors as nat,
        }
    }
}

impl IndexCounters {
    /// Every count can grow by `more` and still be held.
    pub open spec fn room_for(&self, more: nat) -> bool {
        &&& self.resolved + more <= u64::MAX
        &&& self.not_found + more <= u64::MAX
        &&& self.duplicates + more <= u64::MAX
        &&& self.fs_errors + more <= u64::MAX
    }

    /// Counters at zero.
    pub fn new() -> (counters: IndexCounters)
        ensures
            counters@ == (Tally { resolved: 0, not_found: 0, duplicates: 0, fs_errors: 0 }),
            forall|more: nat| more <= u64::MAX ==> counters.room_for(more),
    {
        IndexCounters { resolved: 0, not_found: 0, duplicates: 0, fs_errors: 0 }
    }

    /// Counts one failure of the file system.
    pub fn record_fs_error(&mut self)
        requires
            old(self).room_for(1),
        ensures
            final(self)@ == with_fs_errors(old(self)@, 1),
    {
        self.fs_errors = self.fs_errors + 1;
    }

    /// Whether every count can grow by `more`.
    pub fn has_room_for(&self, more: usize) -> (fits: bool)
        ensures
            fits == self.room_for(more as nat),
    {
        let more = more as u64;
        self.resolved <= u64::MAX - more && self.not_found <= u64::MAX - more && self.duplicates
            <= u64::MAX - more && self.fs_errors <= u64::MAX - more
    }
}

/// Whether the entry is a file that `wanted` names: by its name in the
/// folder, or else by its full path.
pub open spec fn entry_matches(entry: FolderEntry, by_path: bool, wanted: Seq<char>) -> bool {
    match entry {
        FolderEntry::File { name, path } => if by_path {
            path@ == wanted
        } else {
            name@ == wanted
        },
        FolderEntry::Unreadable => false,
    }
}

/// The path of a file of the listing.
pub open spec fn path_text(entry: FolderEntry) -> Seq<char> {
    match entry {
        FolderEntry::File { name, path } => path@,
        FolderEntry::Unreadable => Seq::empty(),
    }
}

/// The first position of the listing that `wanted` names.
pub open spec fn first_match(folder: Seq<FolderEntry>, by_path: bool, wanted: Seq<char>) -> Option<
    int,
>
    decreases folder.len(),
{
    if folder.len() == 0 {
        None
    } else {
        match first_match(folder.drop_last(), by_path, wanted) {
            Some(i) => Some(i),
            None => if entry_matches(folder.last(), by_path, wanted) {
                Some(folder.len() - 1)
            } else {
                None
            },
        }
    }
}

/// Where the file of a manifest entry stands in the listing: the first file
/// with that name, or, where no file has that name, the first file with that
/// full path.
pub open spec fn located(folder: Seq<FolderEntry>, wanted: Seq<char>) -> Option<int> {
    match first_match(folder, false, wanted) {
        Some(i) => Some(i),
        None => first_match(folder, true, wanted),
    }
}

/// `first_match` finds the first position that matches, and finds none only
/// where no position matches.
pub proof fn lemma_first_match(folder: Seq<FolderEntry>, by_path: bool, wanted: Seq<char>)
    ensures
        match first_match(folder, by_path, wanted) {
            Some(i) => 0 <= i < folder.len() && entry_matches(folder[i], by_path, wanted)
                && forall|j: int| 0 <= j < i ==> !entry_matches(#[trigger] folder[j], by_path, wanted),
            None => forall|j: int|
                0 <= j < folder.len() ==> !entry_matches(#[trigger] folder[j], by_path, wanted),
        },
    decreases folder.len(),
{
    if folder.len() > 0 {
        let front = folder.drop_last();
        lemma_first_match(front, by_path, wanted);
        match first_match(front, by_path, wanted) {
            Some(i) => {
                assert(front[i] == folder[i]);
                assert forall|j: int| 0 <= j < i implies !entry_matches(
                    #[trigger] folder[j],
                    by_path,
                    wanted,
                ) by {
                    assert(front[j] == folder[j]);
                }
            },
            None => {
                assert forall|j: int| 0 <= j < folder.len() - 1 implies !entry_matches(
                    #[trigger] folder[j],
                    by_path,
                    wanted,
                ) by {
                    assert(front[j] == folder[j]);
                }
            },
        }
    }
}

/// The index and the counts after the path of a track was put in: the path
/// stands under the track, one more entry is resolved, and one more is a
/// duplicate where the track had a path before.
pub open spec fn path_inserted(
    entries: Seq<(Seq<char>, Seq<char>)>,
    tally: Tally,
    track: Seq<char>,
    path: Seq<char>,
) -> (Seq<(Seq<char>, Seq<char>)>, Tally) {
    (
        upsert(entries, track, path),
        Tally {
            resolved: tally.resolved + 1,
            not_found: tally.not_found,
            duplicates: if key_position(entries, track) is Some {
                tally.duplicates + 1
            } else {
                tally.duplicates
            },
            fs_errors: tally.fs_errors,
        },
    )
}

/// The last write wins: of two paths put in for a track that had none, the
/// index reports the second, and the replacement is counted as one
/// duplicate.
pub proof fn lemma_last_write_wins(
    entries: Seq<(Seq<char>, Seq<char>)>,
    tally: Tally,
    track: Seq<char>,
    first: Seq<char>,
    second: Seq<char>,
)
    requires
        distinct_keys(entries),
        lookup(entries, track) is None,
    ensures
        ({
            let once = path_inserted(entries, tally, track, first);
            let twice = path_inserted(once.0, once.1, track, second);
            &&& lookup(twice.0, track) == Some(second)
            &&& as_map(twice.0) == as_map(entries).insert(track, second)
            &&& twice.0.len() == entries.len() + 1
            &&& twice.1.resolved == tally.resolved + 2
            &&& twice.1.duplicates == tally.duplicates + 1
            &&& twice.1.not_found == tally.not_found
            &&& twice.1.fs_errors == tally.fs_errors
        }),
{
    let once = path_inserted(entries, tally, track, first);
    lemma_upsert(entries, track, first);
    lemma_upsert(once.0, track, second);
    lemma_key_position(entries, track);
    lemma_key_position(once.0, track);
    assert(as_map(entries).insert(track, first).insert(track, second) =~= as_map(entries).insert(
        track,
        second,
    ));
}

/// Whatever stood under a track before, the index reports the path that was
/// put in last.
pub proof fn lemma_insert_reports_last(
    entries: Seq<(Seq<char>, Seq<char>)>,
    track: Seq<char>,
    first: Seq<char>,
    second: Seq<char>,
)
    requires
        distinct_keys(entries),
    ensures
        lookup(upsert(upsert(entries, track, first), track, second), track) == Some(second),
        upsert(upsert(entries, track, first), track, second) == upsert(entries, track, second),
{
    lemma_upsert(entries, track, first);
    let once = upsert(entries, track, first);
    lemma_upsert(once, track, second);
    lemma_key_position(entries, track);
    lemma_key_position(once, track);
    assert(upsert(once, track, second) =~= upsert(entries, track, second));
}

/// The first position of the listing that `wanted` names in the given way.
fn first_match_in(folder: &Vec<FolderEntry>, by_path: bool, wanted: &String) -> (at: Option<usize>)
    ensures
        match at {
            Some(i) => first_match(folder@, by_path, wanted@) == Some(i as int) && i < folder@.len(),
            None => first_match(folder@, by_path, wanted@) is None,
        },
{
    let mut i: usize = 0;
    while i < folder.len()
        invariant
            i <= folder.len(),
            forall|j: int| 0 <= j < i ==> !entry_matches(#[trigger] folder@[j], by_path, wanted@),
        decreases folder.len() - i,
    {
        let hit = match &folder[i] {
            FolderEntry::File { name, path } => if by_path {
                *path == *wanted
            } else {
                *name == *wanted
            },
            FolderEntry::Unreadable => false,
        };
        if hit {
            proof {
                lemma_first_match(folder@, by_path, wanted@);
            }
            return Some(i);
        }
        i += 1;
    }
    proof {
        lemma_first_match(folder@, by_path, wanted@);
    }
    None
}

/// Finds the file of a manifest entry in the listing of its folder: by its
/// name, or else by its full path.
pub fn locate_song(folder: &Vec<FolderEntry>, wanted: &String) -> (at: Option<usize>)
    ensures
        match at {
            Some(i) => located(folder@, wanted@) == Some(i as int) && i < folder@.len()
                && folder@[i as int] is File,
            None => located(folder@, wanted@) is None,
        },
{
    proof {
        lemma_first_match(folder@, false, wanted@);
        lemma_first_match(folder@, true, wanted@);
    }
    match first_match_in(folder, false, wanted) {
        Some(i) => Some(i),
        None => first_match_in(folder, true, wanted),
    }
}

/// Puts the file found for a track into the index. An unreadable entry only
/// counts as a failure of the file system. A text that the catalog does not
/// accept as a track's identifier is refused and changes nothing. Where the
/// track had a path before, that path is replaced and handed back.
pub fn insert_song_path(
    id: &str,
    song: &FolderEntry,
    counters: &mut IndexCounters,
    index: &mut PathIndex,
) -> (r: Result<Option<String>, InvalidId>)
    requires
        old(index).wf(),
        old(counters).room_for(1),
    ensures
        final(index).wf(),
        match *song {
            FolderEntry::Unreadable => {
                &&& r == Ok::<Option<String>, InvalidId>(None)
                &&& final(index).entries() == old(index).entries()
                &&& final(counters)@ == (Tally {
                    fs_errors: old(counters)@.fs_errors + 1,
                    ..old(counters)@
                })
            },
            FolderEntry::File { name, path } => if is_catalog_id(id@) {
                &&& match r {
                    Ok(Some(was)) => lookup(old(index).entries(), id@) == Some(was@),
                    Ok(None) => lookup(old(index).entries(), id@) is None,
                    Err(_) => false,
                }
                &&& (final(index).entries(), final(counters)@) == path_inserted(
                    old(index).entries(),
                    old(counters)@,
                    id@,
                    path@,
                )
                &&& final(index)@ == old(index)@.insert(id@, path@)
            } else {
                &&& r == Err::<Option<String>, InvalidId>(InvalidId)
                &&& final(index).entries() == old(index).entries()
                &&& *final(counters) == *old(counters)
            },
        },
{
    match song {
        FolderEntry::File { name, path } => {
            let track = match TrackId::from_id(id) {
                Ok(track) => track,
                Err(e) => {
                    return Err(e);
                },
            };
            counters.resolved = counters.resolved + 1;
            let was = index.insert(track, path.clone());
            if was.is_some() {
                counters.duplicates = counters.duplicates + 1;
            }
            Ok(was)
        },
        FolderEntry::Unreadable => {
            counters.fs_errors = counters.fs_errors + 1;
            Ok(None)
        },
    }
}

/// What became of one manifest entry.
#[derive(Debug)]
pub enum EntryOutcome {
    /// Its file was found and stands in the index now, in the place of the
    /// path given here if the track had one before.
    Resolved { replaced: Option<String> },
    /// No file of the folder has the name or the path that the entry gives.
    NotFound,
}

/// Why a manifest entry could not be indexed.
#[derive(Debug, Clone, Copy, PartialEq, Eq, Structural)]
pub enum EntryFault {
    /// The line has too few fields to name a file.
    Malformed,
    /// The file was found, but the catalog does not accept the text that the
    /// line gives as the track's identifier.
    InvalidTrackId,
}

/// The first manifest entry that could not be indexed.
#[derive(Debug, Clone, Copy, PartialEq, Eq, Structural)]
pub struct IndexError {
    /// The position of the entry in the manifest, counted from zero.
    pub line: usize,
    pub fault: EntryFault,
}

/// What the manifest of a folder turned out to be.
#[derive(Debug)]
pub enum ManifestRead {
    /// The folder has no manifest.
    Missing,
    /// The folder has a manifest that could not be read.
    Unreadable,
    /// The text of the manifest.
    Body(String),
}

/// What was done with a folder.
#[derive(Debug, Clone, Copy, PartialEq, Eq, Structural)]
pub enum FolderOutcome {
    /// Skipped for want of a manifest: an indexing error of the folder.
    MissingManifest,
    /// Skipped because the manifest could not be read.
    UnreadableManifest,
    /// Skipped because the manifest is empty.
    EmptyManifest,
    /// Every entry of the manifest was indexed or counted as not found.
    Indexed,
}

/// What was done with a folder, and with each entry of its manifest.
#[derive(Debug)]
pub struct FolderReport {
    pub outcome: FolderOutcome,
    /// What became of the entries of the manifest, in their order; empty for
    /// a folder that was skipped.
    pub entries: Vec<EntryOutcome>,
}

/// The name that the manifest has in every folder.
pub const MANIFEST_NAME: &'static str = ".song_ids";

/// The name that the manifest has in every folder.
pub open spec fn manifest_name() -> Seq<char> {
    ".song_ids"@
}

/// The entry can be indexed: it has the field that names the file, and where
/// that file is found, the catalog accepts its track identifier.
pub open spec fn entry_usable(folder: Seq<FolderEntry>, entry: Seq<Seq<char>>) -> bool {
    &&& entry.len() > FILE_FIELD
    &&& located(folder, entry[FILE_FIELD as int]) is Some ==> is_catalog_id(
        entry[TRACK_FIELD as int],
    )
}

/// The index and the counts after one usable entry: its file's path is put
/// in under its track, or the entry is counted as not found.
pub open spec fn entry_indexed(
    state: (Seq<(Seq<char>, Seq<char>)>, Tally),
    folder: Seq<FolderEntry>,
    entry: Seq<Seq<char>>,
) -> (Seq<(Seq<char>, Seq<char>)>, Tally) {
    match located(folder, entry[FILE_FIELD as int]) {
        Some(at) => path_inserted(state.0, state.1, entry[TRACK_FIELD as int], path_text(folder[at])),
        None => (
            state.0,
            Tally {
                resolved: state.1.resolved,
                not_found: state.1.not_found + 1,
                duplicates: state.1.duplicates,
                fs_errors: state.1.fs_errors,
            },
        ),
    }
}

/// `outcome` tells what became of `entry`, given the index `before` it: that
/// its file was found, with the path that it replaced, or that it was not.
pub open spec fn tells_of(
    outcome: EntryOutcome,
    before: Seq<(Seq<char>, Seq<char>)>,
    folder: Seq<FolderEntry>,
    entry: Seq<Seq<char>>,
) -> bool {
    match outcome {
        EntryOutcome::Resolved { replaced } => {
            &&& located(folder, entry[FILE_FIELD as int]) is Some
            &&& match replaced {
                Some(was) => lookup(before, entry[TRACK_FIELD as int]) == Some(was@),
                None => lookup(before, entry[TRACK_FIELD as int]) is None,
            }
        },
        EntryOutcome::NotFound => located(folder, entry[FILE_FIELD as int]) is None,
    }
}

/// The index and the counts after the entries, taken in order.
pub open spec fn entries_indexed(
    state: (Seq<(Seq<char>, Seq<char>)>, Tally),
    folder: Seq<FolderEntry>,
    entries: Seq<Seq<Seq<char>>>,
) -> (Seq<(Seq<char>, Seq<char>)>, Tally)
    decreases entries.len(),
{
    if entries.len() == 0 {
        state
    } else {
        entry_indexed(entries_indexed(state, folder, entries.drop_last()), folder, entries.last())
    }
}

/// The number of entries of the listing that could not be read.
pub open spec fn unreadable_count(folder: Seq<FolderEntry>) -> nat
    decreases folder.len(),
{
    if folder.len() == 0 {
        0
    } else {
        unreadable_count(folder.drop_last()) + if folder.last() is Unreadable {
            1nat
        } else {
            0nat
        }
    }
}

/// The counts with `more` failures of the file system added.
pub open spec fn with_fs_errors(tally: Tally, more: nat) -> Tally {
    Tally {
        resolved: tally.resolved,
        not_found: tally.not_found,
        duplicates: tally.duplicates,
        fs_errors: tally.fs_errors + more,
    }
}

/// Indexing entries only ever adds to the counts of resolved, not found and
/// duplicate entries, by no more than one each per entry, and leaves the
/// failures of the file system as they are.
pub proof fn lemma_entries_indexed_counts(
    state: (Seq<(Seq<char>, Seq<char>)>, Tally),
    folder: Seq<FolderEntry>,
    entries: Seq<Seq<Seq<char>>>,
)
    ensures
        ({
            let after = entries_indexed(state, folder, entries);
            &&& after.1.resolved + after.1.not_found == state.1.resolved + state.1.not_found
                + entries.len()
            &&& state.1.resolved <= after.1.resolved
            &&& state.1.not_found <= after.1.not_found
            &&& state.1.duplicates <= after.1.duplicates
            &&& after.1.duplicates - state.1.duplicates <= after.1.resolved - state.1.resolved
            &&& after.1.fs_errors == state.1.fs_errors
        }),
    decreases entries.len(),
{
    if entries.len() > 0 {
        lemma_entries_indexed_counts(state, folder, entries.drop_last());
    }
}

/// The position of the manifest in the listing of a folder.
pub fn find_manifest(folder: &Vec<FolderEntry>) -> (at: Option<usize>)
    ensures
        match at {
            Some(i) => first_match(folder@, false, manifest_name()) == Some(i as int) && i
                < folder@.len() && folder@[i as int] is File,
            None => first_match(folder@, false, manifest_name()) is None,
        },
{
    let name = MANIFEST_NAME.to_owned();
    proof {
        lemma_first_match(folder@, false, name@);
    }
    first_match_in(folder, false, &name)
}

/// Indexes one manifest entry against the listing of its folder.
pub fn index_entry(
    folder: &Vec<FolderEntry>,
    entry: &SidecarEntry,
    counters: &mut IndexCounters,
    index: &mut PathIndex,
) -> (r: Result<EntryOutcome, EntryFault>)
    requires
        old(index).wf(),
        old(counters).room_for(1),
    ensures
        final(index).wf(),
        match r {
            Ok(outcome) => {
                &&& entry_usable(folder@, entry.deep_view())
                &&& (final(index).entries(), final(counters)@) == entry_indexed(
                    (old(index).entries(), old(counters)@),
                    folder@,
                    entry.deep_view(),
                )
                &&& tells_of(outcome, old(index).entries(), folder@, entry.deep_view())
            },
            Err(fault) => {
                &&& !entry_usable(folder@, entry.deep_view())
                &&& fault == EntryFault::Malformed <==> entry.deep_view().len() <= FILE_FIELD
                &&& final(index).entries() == old(index).entries()
                &&& *final(counters) == *old(counters)
            },
        },
{
    let wanted = match entry.file_name() {
        Some(name) => name,
        None => {
            return Err(EntryFault::Malformed);
        },
    };
    match locate_song(folder, wanted) {
        Some(at) => {
            let id = &entry.fields[TRACK_FIELD];
            match insert_song_path(id.as_str(), &folder[at], counters, index) {
                Ok(replaced) => Ok(EntryOutcome::Resolved { replaced }),
                Err(_) => Err(EntryFault::InvalidTrackId),
            }
        },
        None => {
            counters.not_found = counters.not_found + 1;
            Ok(EntryOutcome::NotFound)
        },
    }
}

/// Indexes the entries of a manifest in order, and stops at the first entry
/// that cannot be indexed: the entries before it are indexed, that entry and
/// those after it are not.
pub fn index_entries(
    folder: &Vec<FolderEntry>,
    entries: &Vec<SidecarEntry>,
    counters: &mut IndexCounters,
    index: &mut PathIndex,
) -> (r: Result<Vec<EntryOutcome>, IndexError>)
    requires
        old(index).wf(),
        old(counters).room_for(entries@.len()),
    ensures
        final(index).wf(),
        match r {
            Ok(outcomes) => {
                &&& forall|j: int|
                    0 <= j < entries@.len() ==> entry_usable(
                        folder@,
                        #[trigger] entries.deep_view()[j],
                    )
                &&& (final(index).entries(), final(counters)@) == entries_indexed(
                    (old(index).entries(), old(counters)@),
                    folder@,
                    entries.deep_view(),
                )
                &&& outcomes@.len() == entries@.len()
                &&& forall|j: int|
                    0 <= j < entries@.len() ==> tells_of(
                        #[trigger] outcomes@[j],
                        entries_indexed(
                            (old(index).entries(), old(counters)@),
                            folder@,
                            entries.deep_view().take(j),
                        ).0,
                        folder@,
                        entries.deep_view()[j],
                    )
            },
            Err(e) => {
                &&& e.line < entries@.len()
                &&& forall|j: int|
                    0 <= j < e.line ==> entry_usable(folder@, #[trigger] entries.deep_view()[j])
                &&& !entry_usable(folder@, entries.deep_view()[e.line as int])
                &&& e.fault == EntryFault::Malformed <==> entries.deep_view()[e.line as int].len()
                    <= FILE_FIELD
                &&& (final(index).entries(), final(counters)@) == entries_indexed(
                    (old(index).entries(), old(counters)@),
                    folder@,
                    entries.deep_view().take(e.line as int),
                )
            },
        },
{
    let ghost start = (index.entries(), counters@);
    let ghost all = entries.deep_view();
    let n = entries.len();
    let mut outcomes: Vec<EntryOutcome> = Vec::new();
    let mut i: usize = 0;
    assert(all.take(0) =~= Seq::<Seq<Seq<char>>>::empty());
    while i < n
        invariant
            index.wf(),
            n == entries@.len(),
            all == entries.deep_view(),
            i <= n,
            outcomes@.len() == i,
            forall|j: int|
                0 <= j < i ==> tells_of(
                    #[trigger] outcomes@[j],
                    entries_indexed(start, folder@, all.take(j)).0,
                    folder@,
                    all[j],
                ),
            counters.room_for((n - i) as nat),
            start == (old(index).entries(), old(counters)@),
            forall|j: int| 0 <= j < i ==> entry_usable(folder@, #[trigger] all[j]),
            (index.entries(), counters@) == entries_indexed(start, folder@, all.take(i as int)),
        decreases n - i,
    {
        proof {
            let next = all.take(i + 1);
            assert(next.drop_last() =~= all.take(i as int));
            assert(next.last() == all[i as int]);
            assert(all[i as int] == entries@[i as int].deep_view());
        }
        match index_entry(folder, &entries[i], counters, index) {
            Ok(outcome) => {
                outcomes.push(outcome);
            },
            Err(fault) => {
                return Err(IndexError { line: i, fault });
            },
        }
        i += 1;
    }
    assert(all.take(n as int) =~= all);
    Ok(outcomes)
}

/// Counts the entries of the listing that could not be read as failures of
/// the file system.
pub fn count_unreadable(folder: &Vec<FolderEntry>, counters: &mut IndexCounters)
    requires
        old(counters).room_for(folder@.len()),
    ensures
        final(counters)@ == with_fs_errors(old(counters)@, unreadable_count(folder@)),
        unreadable_count(folder@) <= folder@.len(),
{
    let ghost start = counters@;
    let mut i: usize = 0;
    assert(folder@.take(0) =~= Seq::<FolderEntry>::empty());
    while i < folder.len()
        invariant
            i <= folder.len(),
            start.fs_errors + folder@.len() <= u64::MAX,
            unreadable_count(folder@.take(i as int)) <= i,
            counters@ == with_fs_errors(start, unreadable_count(folder@.take(i as int))),
        decreases folder.len() - i,
    {
        proof {
            let next = folder@.take(i + 1);
            assert(next.drop_last() =~= folder@.take(i as int));
            assert(next.last() == folder@[i as int]);
        }
        match &folder[i] {
            FolderEntry::Unreadable => {
                counters.fs_errors = counters.fs_errors + 1;
            },
            FolderEntry::File { name, path } => {},
        }
        i += 1;
    }
    assert(folder@.take(folder@.len() as int) =~= folder@);
}

/// Indexes one folder from its listing and what its manifest turned out to
/// be. Entries of the listing that could not be read, and a manifest that
/// could not be read, count as failures of the file system. A folder without
/// a manifest, or with an empty one, adds nothing to the index. Otherwise the
/// entries of the manifest are indexed in order, up to the first that cannot
/// be.
pub fn index_folder(
    folder: &Vec<FolderEntry>,
    manifest: &ManifestRead,
    counters: &mut IndexCounters,
    index: &mut PathIndex,
) -> (r: Result<FolderReport, IndexError>)
    requires
        old(index).wf(),
        old(counters).room_for(
            folder@.len() + 1 + (match *manifest {
                ManifestRead::Body(body) => body@.len(),
                _ => 0,
            }),
        ),
    ensures
        final(index).wf(),
        match *manifest {
            ManifestRead::Missing => {
                &&& r matches Ok(report) && report.outcome == FolderOutcome::MissingManifest
                    && report.entries@.len() == 0
                &&& final(index).entries() == old(index).entries()
                &&& final(counters)@ == with_fs_errors(old(counters)@, unreadable_count(folder@))
            },
            ManifestRead::Unreadable => {
                &&& r matches Ok(report) && report.outcome == FolderOutcome::UnreadableManifest
                    && report.entries@.len() == 0
                &&& final(index).entries() == old(index).entries()
                &&& final(counters)@ == with_fs_errors(
                    old(counters)@,
                    unreadable_count(folder@) + 1,
                )
            },
            ManifestRead::Body(body) => {
                let entries = manifest_entries(body@);
                let start = (
                    old(index).entries(),
                    with_fs_errors(old(counters)@, unreadable_count(folder@)),
                );
                match r {
                    Ok(report) => {
                        &&& report.outcome == (if body@.len() == 0 {
                            FolderOutcome::EmptyManifest
                        } else {
                            FolderOutcome::Indexed
                        })
                        &&& forall|j: int|
                            0 <= j < entries.len() ==> entry_usable(folder@, #[trigger] entries[j])
                        &&& (final(index).entries(), final(counters)@) == entries_indexed(
                            start,
                            folder@,
                            entries,
                        )
                        &&& report.entries@.len() == entries.len()
                        &&& forall|j: int|
                            0 <= j < entries.len() ==> tells_of(
                                #[trigger] report.entries@[j],
                                entries_indexed(start, folder@, entries.take(j)).0,
                                folder@,
                                entries[j],
                            )
                    },
                    Err(e) => {
                        &&& e.line < entries.len()
                        &&& forall|j: int|
                            0 <= j < e.line ==> entry_usable(folder@, #[trigger] entries[j])
                        &&& !entry_usable(folder@, entries[e.line as int])
                        &&& e.fault == EntryFault::Malformed <==> entries[e.line as int].len()
                            <= FILE_FIELD
                        &&& (final(index).entries(), final(counters)@) == entries_indexed(
                            start,
                            folder@,
                            entries.take(e.line as int),
                        )
                    },
                }
            },
        },
{
    count_unreadable(folder, counters);
    match manifest {
        ManifestRead::Missing => Ok(
            FolderReport { outcome: FolderOutcome::MissingManifest, entries: Vec::new() },
        ),
        ManifestRead::Unreadable => {
            counters.fs_errors = counters.fs_errors + 1;
            Ok(FolderReport { outcome: FolderOutcome::UnreadableManifest, entries: Vec::new() })
        },
        ManifestRead::Body(body) => {
            if body.as_str().is_empty() {
                proof {
                    lemma_manifest_len(body@);
                    assert(manifest_entries(body@) =~= Seq::<Seq<Seq<char>>>::empty());
                }
                return Ok(
                    FolderReport { outcome: FolderOutcome::EmptyManifest, entries: Vec::new() },
                );
            }
            let entries = parse_manifest(body.as_str());
            proof {
                lemma_manifest_len(body@);
            }
            match index_entries(folder, &entries, counters, index) {
                Ok(outcomes) => Ok(
                    FolderReport { outcome: FolderOutcome::Indexed, entries: outcomes },
                ),
                Err(e) => Err(e),
            }
        },
    }
}

/// A copy of the entries of the index, in their order.
pub fn path_entries(index: &PathIndex) -> (entries: Vec<(TrackId, String)>)
    ensures
        entries.deep_view() == index.entries(),
{
    let mut entries: Vec<(TrackId, String)> = Vec::new();
    let n = index.len();
    let mut i: usize = 0;
    while i < n
        invariant
            n == index.entries().len(),
            i <= n,
            entries.deep_view() == index.entries().take(i as int),
        decreases n - i,
    {
        let ghost had = entries.deep_view();
        entries.push((index.key_at(i).duplicate(), index.value_at(i).clone()));
        assert(entries.deep_view() =~= had.push(index.entries()[i as int]));
        assert(index.entries().take(i + 1) =~= had.push(index.entries()[i as int]));
        i += 1;
    }
    assert(index.entries().take(n as int) =~= index.entries());
    entries
}

/// The tracks of a page of the index, to ask the catalog about.
pub fn track_ids_of(page: &Vec<(TrackId, String)>) -> (ids: Vec<TrackId>)
    ensures
        ids.deep_view() == Seq::new(page@.len(), |i: int| page.deep_view()[i].0),
{
    let mut ids: Vec<TrackId> = Vec::new();
    let mut i: usize = 0;
    while i < page.len()
        invariant
            i <= page.len(),
            ids@.len() == i,
            forall|j: int| 0 <= j < i ==> (#[trigger] ids@[j])@ == page@[j].0@,
        decreases page.len() - i,
    {
        ids.push(page[i].0.clone());
        i += 1;
    }
    assert(ids.deep_view() =~= Seq::new(page@.len(), |i: int| page.deep_view()[i].0));
    ids
}

} // verus!
