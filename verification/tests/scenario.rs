use genre_tagger::chunking::chunk_hashmap;
use genre_tagger::genres::GenreByTrack;
use genre_tagger::harvest::{redistribute, snapshot, ArtistGenreCache};
use genre_tagger::ids::{ArtistId, TrackId};
use genre_tagger::indexer::{
    find_manifest, index_folder, path_entries, track_ids_of, FolderEntry, FolderOutcome,
    IndexCounters, ManifestRead, PathIndex,
};
use genre_tagger::rewrite::rewrite_jobs;
use genre_tagger::working::{artist_batches, working_set_from, TrackRecord};

fn file(name: &str) -> FolderEntry {
    FolderEntry::File { name: name.to_string(), path: format!("/base/collection/grouping/{}", name) }
}

fn artist(id: &str) -> ArtistId {
    ArtistId::from_id(id).unwrap()
}

#[test]
fn run_from_manifest_to_genre_tags() {
    let folder = vec![file("a.ogg"), file("b.ogg"), file(".song_ids")];
    assert_eq!(find_manifest(&folder), Some(2));
    let manifest = ManifestRead::Body("id1\t\t\t\ta.ogg\nid2\t\t\t\tb.ogg".to_string());
    let mut index = PathIndex::new();
    let mut counters = IndexCounters::new();
    assert_eq!(
        index_folder(&folder, &manifest, &mut counters, &mut index).unwrap().outcome,
        FolderOutcome::Indexed
    );
    assert_eq!(index.len(), 2);
    let id1 = TrackId::from_id("id1").unwrap();
    let id2 = TrackId::from_id("id2").unwrap();
    assert_eq!(index.get(&id1), Some(&"/base/collection/grouping/a.ogg".to_string()));
    assert_eq!(index.get(&id2), Some(&"/base/collection/grouping/b.ogg".to_string()));
    assert_eq!((counters.resolved, counters.not_found), (2, 0));
    assert_eq!((counters.duplicates, counters.fs_errors), (0, 0));

    let pages = chunk_hashmap(path_entries(&index), 50);
    assert_eq!(pages.len(), 1);
    assert_eq!(track_ids_of(&pages[0]), vec![id1.clone(), id2.clone()]);

    let answer = vec![
        TrackRecord { id: Some(id1.clone()), artists: vec![Some(artist("X"))] },
        TrackRecord { id: Some(id2.clone()), artists: vec![Some(artist("X")), Some(artist("Y"))] },
    ];
    let mut working = working_set_from(&answer).unwrap();
    assert_eq!(artist_batches(&working, 50), vec![vec![artist("X"), artist("X"), artist("Y")]]);

    let mut cache = ArtistGenreCache::new();
    cache.insert(artist("X"), vec!["rock".to_string()]);
    cache.insert(artist("Y"), vec!["jazz".to_string()]);
    let mut genres = GenreByTrack::new();
    redistribute(&mut working, &snapshot(&cache), &mut genres);
    assert!(working.is_empty());
    genres.finalize();
    assert_eq!(genres.len(), 2);
    assert_eq!(genres.get(&id1), Some(&vec!["rock".to_string()]));
    assert_eq!(genres.get(&id2), Some(&vec!["jazz".to_string(), "rock".to_string()]));

    let jobs = rewrite_jobs(&index, &genres);
    let tags: Vec<(String, String)> =
        jobs.into_iter().map(|job| job.unwrap()).map(|job| (job.path, job.genre)).collect();
    assert_eq!(
        tags,
        vec![
            ("/base/collection/grouping/a.ogg".to_string(), "rock".to_string()),
            ("/base/collection/grouping/b.ogg".to_string(), "jazz,rock".to_string()),
        ]
    );
}

#[test]
fn folder_without_manifest_does_not_stop_the_run() {
    let bare = vec![file("a.ogg"), file("b.ogg")];
    let full = vec![file("c.ogg"), file(".song_ids")];
    let mut index = PathIndex::new();
    let mut counters = IndexCounters::new();
    assert_eq!(find_manifest(&bare), None);
    assert_eq!(
        index_folder(&bare, &ManifestRead::Missing, &mut counters, &mut index).unwrap().outcome,
        FolderOutcome::MissingManifest
    );
    assert!(index.is_empty());
    assert_eq!((counters.resolved, counters.not_found, counters.duplicates, counters.fs_errors), (0, 0, 0, 0));
    let manifest = ManifestRead::Body("id3\t\t\t\tc.ogg\n".to_string());
    assert_eq!(
        index_folder(&full, &manifest, &mut counters, &mut index).unwrap().outcome,
        FolderOutcome::Indexed
    );
    assert_eq!(index.len(), 1);
    assert_eq!(counters.resolved, 1);
}
