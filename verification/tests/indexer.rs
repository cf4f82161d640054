use genre_tagger::ids::{InvalidId, TrackId};
use genre_tagger::indexer::{
    count_unreadable, find_manifest, index_entries, index_entry, index_folder, insert_song_path,
    locate_song, path_entries, track_ids_of, EntryFault, EntryOutcome, FolderEntry, FolderOutcome,
    IndexCounters, IndexError, ManifestRead, PathIndex, MANIFEST_NAME,
};
use genre_tagger::manifest::parse_manifest;

fn file(name: &str, path: &str) -> FolderEntry {
    FolderEntry::File { name: name.to_string(), path: path.to_string() }
}

fn track(id: &str) -> TrackId {
    TrackId::from_id(id).unwrap()
}

fn album() -> Vec<FolderEntry> {
    vec![
        file("a.ogg", "/music/artist/album/a.ogg"),
        file(".song_ids", "/music/artist/album/.song_ids"),
        file("b.ogg", "/music/artist/album/b.ogg"),
    ]
}

fn counts(c: &IndexCounters) -> (u64, u64, u64, u64) {
    (c.resolved, c.not_found, c.duplicates, c.fs_errors)
}

#[test]
fn insert_is_last_write_wins() {
    let mut index = PathIndex::new();
    let mut counters = IndexCounters::new();
    let first = insert_song_path("id1", &file("a.ogg", "/old/a.ogg"), &mut counters, &mut index);
    assert_eq!(first, Ok(None));
    assert_eq!(counts(&counters), (1, 0, 0, 0));
    let second = insert_song_path("id1", &file("a.ogg", "/new/a.ogg"), &mut counters, &mut index);
    assert_eq!(second, Ok(Some("/old/a.ogg".to_string())));
    assert_eq!(index.len(), 1);
    assert_eq!(index.get(&track("id1")), Some(&"/new/a.ogg".to_string()));
    assert_eq!(counts(&counters), (2, 0, 1, 0));
}

#[test]
fn insert_keeps_other_tracks() {
    let mut index = PathIndex::new();
    let mut counters = IndexCounters::new();
    insert_song_path("id1", &file("a.ogg", "/a.ogg"), &mut counters, &mut index).unwrap();
    insert_song_path("id2", &file("b.ogg", "/b.ogg"), &mut counters, &mut index).unwrap();
    insert_song_path("id1", &file("c.ogg", "/c.ogg"), &mut counters, &mut index).unwrap();
    assert_eq!(index.get(&track("id1")), Some(&"/c.ogg".to_string()));
    assert_eq!(index.get(&track("id2")), Some(&"/b.ogg".to_string()));
    assert_eq!(index.get(&track("id3")), None);
    assert!(index.contains_key(&track("id2")));
    assert!(!index.contains_key(&track("id3")));
    assert_eq!(index.position(&track("id1")), Some(0));
    assert_eq!(index.position(&track("id2")), Some(1));
    assert_eq!(index.key_at(1).id(), "id2");
    assert_eq!(counts(&counters), (3, 0, 1, 0));
}

#[test]
fn insert_counts_unreadable_entry() {
    let mut index = PathIndex::new();
    let mut counters = IndexCounters::new();
    let r = insert_song_path("id1", &FolderEntry::Unreadable, &mut counters, &mut index);
    assert_eq!(r, Ok(None));
    assert!(index.is_empty());
    assert_eq!(counts(&counters), (0, 0, 0, 1));
}

#[test]
fn insert_refuses_invalid_id() {
    let mut index = PathIndex::new();
    let mut counters = IndexCounters::new();
    let r = insert_song_path("not/an/id", &file("a.ogg", "/a.ogg"), &mut counters, &mut index);
    assert_eq!(r, Err(InvalidId));
    assert!(index.is_empty());
    assert_eq!(counts(&counters), (0, 0, 0, 0));
}

#[test]
fn song_is_located_by_name() {
    assert_eq!(locate_song(&album(), &"b.ogg".to_string()), Some(2));
    assert_eq!(locate_song(&album(), &"a.ogg".to_string()), Some(0));
}

#[test]
fn song_is_located_by_full_path() {
    assert_eq!(locate_song(&album(), &"/music/artist/album/b.ogg".to_string()), Some(2));
}

#[test]
fn name_is_tried_before_path() {
    let folder = vec![file("x", "shared"), file("shared", "y")];
    assert_eq!(locate_song(&folder, &"shared".to_string()), Some(1));
}

#[test]
fn first_of_equal_names_is_taken() {
    let folder = vec![FolderEntry::Unreadable, file("a", "/1/a"), file("a", "/2/a")];
    assert_eq!(locate_song(&folder, &"a".to_string()), Some(1));
}

#[test]
fn missing_song_is_not_located() {
    assert_eq!(locate_song(&album(), &"c.ogg".to_string()), None);
    assert_eq!(locate_song(&vec![FolderEntry::Unreadable], &"".to_string()), None);
    assert_eq!(locate_song(&Vec::new(), &"a.ogg".to_string()), None);
}

#[test]
fn manifest_is_found_by_its_name() {
    assert_eq!(MANIFEST_NAME, ".song_ids");
    assert_eq!(find_manifest(&album()), Some(1));
    assert_eq!(find_manifest(&vec![file("a.ogg", "/.song_ids")]), None);
    assert_eq!(find_manifest(&vec![FolderEntry::Unreadable]), None);
}

#[test]
fn entry_is_resolved() {
    let mut index = PathIndex::new();
    let mut counters = IndexCounters::new();
    let entries = parse_manifest("id1\t\t\t\ta.ogg");
    let r = index_entry(&album(), &entries[0], &mut counters, &mut index).unwrap();
    assert!(matches!(r, EntryOutcome::Resolved { replaced: None }));
    assert_eq!(index.get(&track("id1")), Some(&"/music/artist/album/a.ogg".to_string()));
    assert_eq!(counts(&counters), (1, 0, 0, 0));
}

#[test]
fn entry_without_file_is_not_found() {
    let mut index = PathIndex::new();
    let mut counters = IndexCounters::new();
    let entries = parse_manifest("id1\t\t\t\tmissing.ogg");
    let r = index_entry(&album(), &entries[0], &mut counters, &mut index).unwrap();
    assert!(matches!(r, EntryOutcome::NotFound));
    assert!(index.is_empty());
    assert_eq!(counts(&counters), (0, 1, 0, 0));
}

#[test]
fn entry_with_invalid_id_and_no_file_is_not_found() {
    let mut index = PathIndex::new();
    let mut counters = IndexCounters::new();
    let entries = parse_manifest("bad id\t\t\t\tmissing.ogg");
    let r = index_entry(&album(), &entries[0], &mut counters, &mut index).unwrap();
    assert!(matches!(r, EntryOutcome::NotFound));
    assert_eq!(counts(&counters), (0, 1, 0, 0));
}

#[test]
fn short_entry_is_malformed() {
    let mut index = PathIndex::new();
    let mut counters = IndexCounters::new();
    let entries = parse_manifest("id1\ta.ogg");
    let r = index_entry(&album(), &entries[0], &mut counters, &mut index);
    assert_eq!(r.unwrap_err(), EntryFault::Malformed);
    assert!(index.is_empty());
    assert_eq!(counts(&counters), (0, 0, 0, 0));
}

#[test]
fn located_entry_with_invalid_id_is_refused() {
    let mut index = PathIndex::new();
    let mut counters = IndexCounters::new();
    let entries = parse_manifest("bad id\t\t\t\ta.ogg");
    let r = index_entry(&album(), &entries[0], &mut counters, &mut index);
    assert_eq!(r.unwrap_err(), EntryFault::InvalidTrackId);
    assert!(index.is_empty());
    assert_eq!(counts(&counters), (0, 0, 0, 0));
}

#[test]
fn entries_stop_at_the_first_fault() {
    let mut index = PathIndex::new();
    let mut counters = IndexCounters::new();
    let entries = parse_manifest("id1\t\t\t\ta.ogg\nshort\nid2\t\t\t\tb.ogg");
    let r = index_entries(&album(), &entries, &mut counters, &mut index);
    assert_eq!(r.unwrap_err(), IndexError { line: 1, fault: EntryFault::Malformed });
    assert_eq!(index.len(), 1);
    assert!(index.contains_key(&track("id1")));
    assert_eq!(counts(&counters), (1, 0, 0, 0));
}

#[test]
fn unreadable_entries_are_counted() {
    let mut counters = IndexCounters::new();
    let folder = vec![FolderEntry::Unreadable, file("a", "/a"), FolderEntry::Unreadable];
    count_unreadable(&folder, &mut counters);
    assert_eq!(counts(&counters), (0, 0, 0, 2));
}

#[test]
fn folder_is_indexed_from_its_manifest() {
    let mut index = PathIndex::new();
    let mut counters = IndexCounters::new();
    let manifest = ManifestRead::Body("id1\t\t\t\ta.ogg\nid2\t\t\t\tb.ogg\n".to_string());
    let r = index_folder(&album(), &manifest, &mut counters, &mut index);
    assert_eq!(r.unwrap().outcome, FolderOutcome::Indexed);
    assert_eq!(index.len(), 2);
    assert_eq!(index.get(&track("id1")), Some(&"/music/artist/album/a.ogg".to_string()));
    assert_eq!(index.get(&track("id2")), Some(&"/music/artist/album/b.ogg".to_string()));
    assert_eq!(counts(&counters), (2, 0, 0, 0));
}

#[test]
fn folder_without_manifest_adds_nothing() {
    let mut index = PathIndex::new();
    let mut counters = IndexCounters::new();
    insert_song_path("id0", &file("z.ogg", "/z.ogg"), &mut counters, &mut index).unwrap();
    let folder = vec![file("a.ogg", "/a.ogg"), file("b.ogg", "/b.ogg")];
    assert_eq!(find_manifest(&folder), None);
    let r = index_folder(&folder, &ManifestRead::Missing, &mut counters, &mut index);
    let report = r.unwrap();
    assert_eq!(report.outcome, FolderOutcome::MissingManifest);
    assert!(report.entries.is_empty());
    assert_eq!(index.len(), 1);
    assert_eq!(counts(&counters), (1, 0, 0, 0));
    let next = ManifestRead::Body("id1\t\t\t\ta.ogg".to_string());
    assert_eq!(index_folder(&album(), &next, &mut counters, &mut index).unwrap().outcome, FolderOutcome::Indexed);
    assert_eq!(index.len(), 2);
}

#[test]
fn folder_with_empty_manifest_is_skipped() {
    let mut index = PathIndex::new();
    let mut counters = IndexCounters::new();
    let r = index_folder(&album(), &ManifestRead::Body(String::new()), &mut counters, &mut index);
    assert_eq!(r.unwrap().outcome, FolderOutcome::EmptyManifest);
    assert!(index.is_empty());
    assert_eq!(counts(&counters), (0, 0, 0, 0));
}

#[test]
fn unreadable_manifest_is_a_file_system_error() {
    let mut index = PathIndex::new();
    let mut counters = IndexCounters::new();
    let folder = vec![FolderEntry::Unreadable, file("a.ogg", "/a.ogg")];
    let r = index_folder(&folder, &ManifestRead::Unreadable, &mut counters, &mut index);
    assert_eq!(r.unwrap().outcome, FolderOutcome::UnreadableManifest);
    assert!(index.is_empty());
    assert_eq!(counts(&counters), (0, 0, 0, 2));
}

#[test]
fn folder_counts_what_is_not_found_and_what_is_replaced() {
    let mut index = PathIndex::new();
    let mut counters = IndexCounters::new();
    let body = "id1\t\t\t\ta.ogg\nid1\t\t\t\t/music/artist/album/b.ogg\nid3\t\t\t\tc.ogg\n";
    let r = index_folder(&album(), &ManifestRead::Body(body.to_string()), &mut counters, &mut index);
    let report = r.unwrap();
    assert_eq!(report.outcome, FolderOutcome::Indexed);
    assert_eq!(report.entries.len(), 3);
    assert!(matches!(&report.entries[0], EntryOutcome::Resolved { replaced: None }));
    assert!(matches!(
        &report.entries[1],
        EntryOutcome::Resolved { replaced: Some(was) } if was == "/music/artist/album/a.ogg"
    ));
    assert!(matches!(&report.entries[2], EntryOutcome::NotFound));
    assert_eq!(index.len(), 1);
    assert_eq!(index.get(&track("id1")), Some(&"/music/artist/album/b.ogg".to_string()));
    assert_eq!(counts(&counters), (2, 1, 1, 0));
}

#[test]
fn folder_reports_the_faulty_line() {
    let mut index = PathIndex::new();
    let mut counters = IndexCounters::new();
    let body = "id1\t\t\t\ta.ogg\nbad id\t\t\t\tb.ogg\n";
    let r = index_folder(&album(), &ManifestRead::Body(body.to_string()), &mut counters, &mut index);
    assert_eq!(r.unwrap_err(), IndexError { line: 1, fault: EntryFault::InvalidTrackId });
    assert_eq!(index.len(), 1);
    assert_eq!(counts(&counters), (1, 0, 0, 0));
}

#[test]
fn counters_know_their_room() {
    let mut counters = IndexCounters::new();
    assert!(counters.has_room_for(usize::MAX));
    counters.not_found = u64::MAX - 1;
    assert!(counters.has_room_for(1));
    assert!(!counters.has_room_for(2));
}

#[test]
fn index_hands_out_its_entries_in_order() {
    let mut index = PathIndex::new();
    let mut counters = IndexCounters::new();
    insert_song_path("id2", &file("b.ogg", "/b.ogg"), &mut counters, &mut index).unwrap();
    insert_song_path("id1", &file("a.ogg", "/a.ogg"), &mut counters, &mut index).unwrap();
    insert_song_path("id2", &file("c.ogg", "/c.ogg"), &mut counters, &mut index).unwrap();
    let entries = path_entries(&index);
    assert_eq!(entries, vec![(track("id2"), "/c.ogg".to_string()), (track("id1"), "/a.ogg".to_string())]);
    assert_eq!(track_ids_of(&entries), vec![track("id2"), track("id1")]);
}
