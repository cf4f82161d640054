use genre_tagger::chunking::chunk_hashmap;
use genre_tagger::genres::GenreByTrack;
use genre_tagger::harvest::{
    absorb, harvest, redistribute, resolve_artists, snapshot, ArtistGenreCache,
};
use genre_tagger::ids::{ArtistId, TrackId};
use genre_tagger::pacing::jitter_millis;
use genre_tagger::working::{
    artist_batches, artist_rows, working_set_from, AggregationError, TrackArtistWorkingSet,
    TrackRecord,
};

fn strings(items: &[&str]) -> Vec<String> {
    items.iter().map(|s| s.to_string()).collect()
}

fn track(id: &str) -> TrackId {
    TrackId::from_id(id).unwrap()
}

fn artist(id: &str) -> ArtistId {
    ArtistId::from_id(id).unwrap()
}

fn artists(ids: &[&str]) -> Vec<ArtistId> {
    ids.iter().map(|id| artist(id)).collect()
}

fn record(id: &str, artist_ids: &[&str]) -> TrackRecord {
    TrackRecord { id: Some(track(id)), artists: artist_ids.iter().map(|a| Some(artist(a))).collect() }
}

fn working(records: &[(&str, &[&str])]) -> TrackArtistWorkingSet {
    let records: Vec<TrackRecord> = records.iter().map(|(t, a)| record(t, a)).collect();
    working_set_from(&records).unwrap()
}

fn cache(entries: &[(&str, &[&str])]) -> ArtistGenreCache {
    let mut cache = ArtistGenreCache::new();
    for (id, genres) in entries {
        cache.insert(artist(id), strings(genres));
    }
    cache
}

fn contents(set: &TrackArtistWorkingSet) -> Vec<(String, Vec<String>)> {
    (0..set.len())
        .map(|i| {
            (
                set.key_at(i).id().to_string(),
                set.value_at(i).iter().map(|a| a.id().to_string()).collect(),
            )
        })
        .collect()
}

fn gathered(genres: &GenreByTrack) -> Vec<(String, Vec<String>)> {
    (0..genres.len()).map(|i| (genres.key_at(i).id().to_string(), genres.value_at(i).clone())).collect()
}

fn entry(key: &str, values: &[&str]) -> (String, Vec<String>) {
    (key.to_string(), strings(values))
}

#[test]
fn working_set_holds_the_artists_of_each_track() {
    let set = working(&[("t1", &["X"]), ("t2", &["X", "Y"])]);
    assert_eq!(contents(&set), vec![entry("t1", &["X"]), entry("t2", &["X", "Y"])]);
}

#[test]
fn later_record_of_a_track_replaces_the_earlier() {
    let set = working(&[("t1", &["X"]), ("t2", &["Y"]), ("t1", &["Z"])]);
    assert_eq!(contents(&set), vec![entry("t1", &["Z"]), entry("t2", &["Y"])]);
}

#[test]
fn record_without_track_id_is_refused() {
    let records = vec![record("t1", &["X"]), TrackRecord { id: None, artists: vec![None] }];
    assert_eq!(
        working_set_from(&records).unwrap_err(),
        AggregationError::MissingTrackId { record: 1 }
    );
}

#[test]
fn record_without_artist_id_is_refused() {
    let records = vec![
        TrackRecord { id: Some(track("t1")), artists: vec![Some(artist("X")), None] },
        TrackRecord { id: None, artists: vec![] },
    ];
    assert_eq!(
        working_set_from(&records).unwrap_err(),
        AggregationError::MissingArtistId { record: 0 }
    );
}

#[test]
fn rows_pair_each_track_with_each_of_its_artists() {
    let set = working(&[("t1", &["X"]), ("t0", &[]), ("t2", &["X", "Y"])]);
    assert_eq!(
        artist_rows(&set),
        vec![(track("t1"), artist("X")), (track("t2"), artist("X")), (track("t2"), artist("Y"))]
    );
}

#[test]
fn artists_are_asked_for_in_pages() {
    let set = working(&[("t1", &["A", "B", "C"]), ("t2", &["D", "A"])]);
    assert_eq!(
        artist_batches(&set, 2),
        vec![artists(&["A", "B"]), artists(&["C", "D"]), artists(&["A"])]
    );
    assert_eq!(artist_batches(&set, 50), vec![artists(&["A", "B", "C", "D", "A"])]);
    assert_eq!(artist_batches(&working(&[("t1", &[])]), 50), Vec::<Vec<ArtistId>>::new());
}

#[test]
fn batches_are_the_chunks_of_the_rows() {
    let set = working(&[("t1", &["A", "B", "C"]), ("t2", &["D", "A"])]);
    let from_rows: Vec<Vec<ArtistId>> = chunk_hashmap(artist_rows(&set), 2)
        .into_iter()
        .map(|chunk| chunk.into_iter().map(|(_, a)| a).collect())
        .collect();
    assert_eq!(artist_batches(&set, 2), from_rows);
}

#[test]
fn cache_insert_overwrites() {
    let mut cache = cache(&[("X", &["rock"]), ("Y", &["jazz"])]);
    assert_eq!(cache.insert(artist("X"), strings(&["pop"])), Some(strings(&["rock"])));
    assert_eq!(cache.len(), 2);
    assert_eq!(cache.get(&artist("X")), Some(&strings(&["pop"])));
    assert_eq!(cache.key_at(0).id(), "X");
}

#[test]
fn snapshot_copies_the_cache() {
    let mut source = cache(&[("X", &["rock"]), ("Y", &["jazz", "bop"])]);
    let copy = snapshot(&source);
    source.insert(artist("Z"), strings(&["pop"]));
    assert_eq!(copy.len(), 2);
    assert_eq!(copy.key_at(0).id(), "X");
    assert_eq!(copy.value_at(0), &strings(&["rock"]));
    assert_eq!(copy.key_at(1).id(), "Y");
    assert_eq!(copy.value_at(1), &strings(&["jazz", "bop"]));
}

#[test]
fn track_takes_the_genres_of_its_cached_artists() {
    let r = resolve_artists(
        &artists(&["A1", "A2", "A3"]),
        &cache(&[("A3", &["jazz"]), ("A9", &["pop"]), ("A1", &["rock", "indie"])]),
    );
    assert!(r.matched);
    assert_eq!(r.pending, artists(&["A2"]));
    assert_eq!(r.tags, strings(&["jazz", "rock", "indie"]));
}

#[test]
fn track_without_cached_artist_takes_nothing() {
    let r = resolve_artists(&artists(&["A1"]), &cache(&[("A2", &["rock"])]));
    assert!(!r.matched);
    assert_eq!(r.pending, artists(&["A1"]));
    assert_eq!(r.tags, strings(&[]));
}

#[test]
fn artist_listed_twice_is_resolved_once() {
    let r = resolve_artists(&artists(&["A1", "A2", "A1"]), &cache(&[("A1", &["rock"])]));
    assert!(r.matched);
    assert_eq!(r.pending, artists(&["A2", "A1"]));
    assert_eq!(r.tags, strings(&["rock"]));
}

#[test]
fn partial_resolution_keeps_the_track_waiting() {
    let mut set = working(&[("T", &["A1", "A2"])]);
    let mut genres = GenreByTrack::new();
    redistribute(&mut set, &cache(&[("A1", &["rock", "indie"])]), &mut genres);
    assert_eq!(gathered(&genres), vec![entry("T", &["rock", "indie"])]);
    assert_eq!(contents(&set), vec![entry("T", &["A2"])]);
}

#[test]
fn second_pass_resolves_the_rest() {
    let mut set = working(&[("T", &["A1", "A2"])]);
    let mut genres = GenreByTrack::new();
    redistribute(&mut set, &cache(&[("A1", &["rock"])]), &mut genres);
    redistribute(&mut set, &cache(&[("A1", &["rock"]), ("A2", &["jazz"])]), &mut genres);
    assert_eq!(gathered(&genres), vec![entry("T", &["rock", "jazz"])]);
    assert!(set.is_empty());
}

#[test]
fn resolved_track_leaves_the_working_set() {
    let mut set = working(&[("t1", &["X"]), ("t2", &["X", "Y"]), ("t3", &["Z"])]);
    let gains = harvest(&mut set, &cache(&[("X", &["rock"]), ("Y", &["jazz"])]));
    assert_eq!(gains, vec![(track("t1"), strings(&["rock"])), (track("t2"), strings(&["rock", "jazz"]))]);
    assert_eq!(contents(&set), vec![entry("t3", &["Z"])]);
}

#[test]
fn track_without_artists_stays_and_gets_no_genres() {
    let mut set = working(&[("t0", &[]), ("t1", &["X"])]);
    let mut genres = GenreByTrack::new();
    redistribute(&mut set, &cache(&[("X", &["rock"])]), &mut genres);
    assert_eq!(contents(&set), vec![entry("t0", &[])]);
    assert_eq!(gathered(&genres), vec![entry("t1", &["rock"])]);
    assert_eq!(genres.get(&track("t0")), None);
}

#[test]
fn artist_without_genres_still_makes_the_entry() {
    let mut set = working(&[("t1", &["X"])]);
    let mut genres = GenreByTrack::new();
    redistribute(&mut set, &cache(&[("X", &[])]), &mut genres);
    assert!(set.is_empty());
    assert_eq!(gathered(&genres), vec![entry("t1", &[])]);
}

#[test]
fn empty_cache_changes_nothing() {
    let mut set = working(&[("t1", &["X"])]);
    let mut genres = GenreByTrack::new();
    genres.append(track("t9"), strings(&["pop"]));
    redistribute(&mut set, &ArtistGenreCache::new(), &mut genres);
    assert_eq!(contents(&set), vec![entry("t1", &["X"])]);
    assert_eq!(gathered(&genres), vec![entry("t9", &["pop"])]);
}

#[test]
fn contributions_are_added_behind_what_was_gathered() {
    let mut genres = GenreByTrack::new();
    genres.append(track("t1"), strings(&["pop"]));
    absorb(
        &mut genres,
        &vec![(track("t2"), strings(&["jazz"])), (track("t1"), strings(&["rock", "pop"]))],
    );
    assert_eq!(gathered(&genres), vec![entry("t1", &["pop", "rock", "pop"]), entry("t2", &["jazz"])]);
}

#[test]
fn finalize_sorts_and_dedups_every_list() {
    let mut genres = GenreByTrack::new();
    genres.append(track("t1"), strings(&["rock", "jazz", "rock"]));
    genres.append(track("t2"), strings(&[]));
    genres.append(track("t3"), strings(&["b", "a"]));
    genres.finalize();
    assert_eq!(
        gathered(&genres),
        vec![entry("t1", &["jazz", "rock"]), entry("t2", &[]), entry("t3", &["a", "b"])]
    );
}

#[test]
fn finalize_is_idempotent() {
    let mut genres = GenreByTrack::new();
    genres.append(track("t1"), strings(&["rock", "jazz", "rock"]));
    genres.append(track("t2"), strings(&["a"]));
    genres.finalize();
    let once = gathered(&genres);
    genres.finalize();
    assert_eq!(gathered(&genres), once);
}

#[test]
fn jitter_stays_below_ten_per_track() {
    for _ in 0..200 {
        assert!(jitter_millis(1) < 10);
        assert!(jitter_millis(7) < 70);
    }
    assert!(jitter_millis(u64::MAX / 10) < u64::MAX / 10 * 10);
}

#[test]
fn jitter_varies() {
    let first = jitter_millis(1_000_000_000);
    assert!((0..64).any(|_| jitter_millis(1_000_000_000) != first));
}
