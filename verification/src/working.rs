//! The working set of one aggregation task: for each track of the task the
//! artists whose genres it still waits for.

use vstd::prelude::*;
use crate::chunking::{chunk_count, chunk_hashmap, chunk_of, lemma_chunk_lengths};
use crate::ids::{ArtistId, CatalogKey, TrackId};
use crate::keyed::{upsert, KeyedList};

verus! {

/// For each track the artists not yet resolved to genres.
pub type TrackArtistWorkingSet = KeyedList<TrackId, Vec<ArtistId>>;

/// What the catalog answers about one track: its identifier and the
/// identifiers of its artists, each of which may be missing from the answer.
#[derive(Debug)]
pub struct TrackRecord {
    pub id: Option<TrackId>,
    pub artists: Vec<Option<ArtistId>>,
}

/// Why the catalog's answer about tracks could not be used.
#[derive(Debug, Clone, Copy, PartialEq, Eq)]
pub enum AggregationError {
    /// The record at this position names no track.
    MissingTrackId { record: usize },
    /// The record at this position has an artist without an identifier.
    MissingArtistId { record: usize },
}

/// The record names its track and every one of its artists.
pub open spec fn record_complete(record: TrackRecord) -> bool {
    &&& record.id is Some
    &&& forall|i: int| 0 <= i < record.artists@.len() ==> (#[trigger] record.artists@[i]) is Some
}

/// The texts of the artists of a record.
pub open spec fn artist_texts(artists: Seq<Option<ArtistId>>) -> Seq<Seq<char>> {
    Seq::new(artists.len(), |i: int| artists[i].unwrap()@)
}

/// The working set that the records make, taken in order: a later record of
/// a track replaces the earlier one.
pub open spec fn working_entries(records: Seq<TrackRecord>) -> Seq<(Seq<char>, Seq<Seq<char>>)>
    decreases records.len(),
{
    if records.len() == 0 {
        Seq::empty()
    } else {
        upsert(
            working_entries(records.drop_last()),
            records.last().id.unwrap()@,
            artist_texts(records.last().artists@),
        )
    }
}

/// One row for each pair of a track and one of its artists, the tracks in
/// order and the artists of each track in order.
pub open spec fn artist_rows_of(entries: Seq<(Seq<char>, Seq<Seq<char>>)>) -> Seq<
    (Seq<char>, Seq<char>),
>
    decreases entries.len(),
{
    if entries.len() == 0 {
        Seq::empty()
    } else {
        artist_rows_of(entries.drop_last()) + Seq::new(
            entries.last().1.len(),
            |i: int| (entries.last().0, entries.last().1[i]),
        )
    }
}

/// The artists of the rows.
pub open spec fn artists_of_rows(rows: Seq<(Seq<char>, Seq<char>)>) -> Seq<Seq<char>> {
    Seq::new(rows.len(), |i: int| rows[i].1)
}

/// A copy of the artists of a record, if none is missing.
fn named_artists(artists: &Vec<Option<ArtistId>>) -> (named: Option<Vec<ArtistId>>)
    ensures
        match named {
            Some(list) => (forall|i: int|
                0 <= i < artists@.len() ==> (#[trigger] artists@[i]) is Some) && list.deep_view()
                == artist_texts(artists@),
            None => exists|i: int| 0 <= i < artists@.len() && (#[trigger] artists@[i]) is None,
        },
{
    let mut list: Vec<ArtistId> = Vec::new();
    let mut i: usize = 0;
    while i < artists.len()
        invariant
            i <= artists.len(),
            forall|j: int| 0 <= j < i ==> (#[trigger] artists@[j]) is Some,
            list.deep_view() == artist_texts(artists@).take(i as int),
        decreases artists.len() - i,
    {
        match &artists[i] {
            Some(artist) => {
                let ghost had = list.deep_view();
                list.push(artist.clone());
                assert(list.deep_view() =~= had.push(artist@));
                assert(artist_texts(artists@).take(i + 1) =~= artist_texts(artists@).take(
                    i as int,
                ).push(artist@));
            },
            None => {
                return None;
            },
        }
        i += 1;
    }
    assert(artist_texts(artists@).take(artists@.len() as int) =~= artist_texts(artists@));
    Some(list)
}

/// Builds the working set of a task from the catalog's answer about its
/// tracks. An answer that leaves out the identifier of a track or of an
/// artist is refused, with the position of the first such record.
pub fn working_set_from(records: &Vec<TrackRecord>) -> (r: Result<
    TrackArtistWorkingSet,
    AggregationError,
>)
    ensures
        match r {
            Ok(set) => {
                &&& set.wf()
                &&& forall|i: int| 0 <= i < records@.len() ==> record_complete(#[trigger] records@[i])
                &&& set.entries() == working_entries(records@)
            },
            Err(AggregationError::MissingTrackId { record }) => {
                &&& record < records@.len()
                &&& records@[record as int].id is None
                &&& forall|i: int| 0 <= i < record ==> record_complete(#[trigger] records@[i])
            },
            Err(AggregationError::MissingArtistId { record }) => {
                &&& record < records@.len()
                &&& records@[record as int].id is Some
                &&& !record_complete(records@[record as int])
                &&& forall|i: int| 0 <= i < record ==> record_complete(#[trigger] records@[i])
            },
        },
{
    let mut set = TrackArtistWorkingSet::new();
    let mut i: usize = 0;
    assert(records@.take(0) =~= Seq::<TrackRecord>::empty());
    while i < records.len()
        invariant
            i <= records.len(),
            set.wf(),
            forall|j: int| 0 <= j < i ==> record_complete(#[trigger] records@[j]),
            set.entries() == working_entries(records@.take(i as int)),
        decreases records.len() - i,
    {
        let record = &records[i];
        let track = match &record.id {
            Some(track) => track.clone(),
            None => {
                return Err(AggregationError::MissingTrackId { record: i });
            },
        };
        let artists = match named_artists(&record.artists) {
            Some(list) => list,
            None => {
                return Err(AggregationError::MissingArtistId { record: i });
            },
        };
        proof {
            let upto = records@.take(i + 1);
            assert(upto.drop_last() =~= records@.take(i as int));
            assert(upto.last() == records@[i as int]);
        }
        set.insert(track, artists);
        i += 1;
    }
    assert(records@.take(records@.len() as int) =~= records@);
    Ok(set)
}

/// The rows of a working set: each track once for every artist it waits for.
pub fn artist_rows(set: &TrackArtistWorkingSet) -> (rows: Vec<(TrackId, ArtistId)>)
    ensures
        rows.deep_view() == artist_rows_of(set.entries()),
{
    let mut rows: Vec<(TrackId, ArtistId)> = Vec::new();
    let n = set.len();
    let mut i: usize = 0;
    assert(set.entries().take(0) =~= Seq::<(Seq<char>, Seq<Seq<char>>)>::empty());
    while i < n
        invariant
            n == set.entries().len(),
            i <= n,
            rows.deep_view() == artist_rows_of(set.entries().take(i as int)),
        decreases n - i,
    {
        let track = set.key_at(i);
        let artists = set.value_at(i);
        let ghost done = rows.deep_view();
        let ghost entry = set.entries()[i as int];
        let mut j: usize = 0;
        while j < artists.len()
            invariant
                j <= artists.len(),
                track.text() == entry.0,
                artists.deep_view() == entry.1,
                rows.deep_view() == done + Seq::new(j as nat, |k: int| (entry.0, entry.1[k])),
            decreases artists.len() - j,
        {
            let ghost had = rows.deep_view();
            rows.push((track.duplicate(), artists[j].clone()));
            assert(rows.deep_view() =~= had.push((entry.0, entry.1[j as int])));
            assert(rows.deep_view() =~= done + Seq::new(
                (j + 1) as nat,
                |k: int| (entry.0, entry.1[k]),
            ));
            j += 1;
        }
        proof {
            let upto = set.entries().take(i + 1);
            assert(upto.drop_last() =~= set.entries().take(i as int));
            assert(upto.last() == entry);
        }
        i += 1;
    }
    assert(set.entries().take(n as int) =~= set.entries());
    rows
}

/// The artists to ask the catalog about, cut into requests of at most
/// `page_size`: the artists of the rows, in order, an artist once for every
/// track that waits for it.
pub fn artist_batches(set: &TrackArtistWorkingSet, page_size: usize) -> (batches: Vec<
    Vec<ArtistId>,
>)
    requires
        page_size > 0,
    ensures
        batches.len() == chunk_count(artist_rows_of(set.entries()).len(), page_size as nat),
        forall|i: int|
            0 <= i < batches.len() ==> (#[trigger] batches[i]).deep_view() == chunk_of(
                artists_of_rows(artist_rows_of(set.entries())),
                page_size as nat,
                i,
            ),
{
    let rows = artist_rows(set);
    let ghost all = rows.deep_view();
    let ghost page = page_size as nat;
    let chunks = chunk_hashmap(rows, page_size);
    let mut batches: Vec<Vec<ArtistId>> = Vec::new();
    let mut i: usize = 0;
    while i < chunks.len()
        invariant
            i <= chunks.len(),
            page == page_size,
            page > 0,
            all == rows.deep_view(),
            chunks.len() == chunk_count(all.len(), page),
            forall|k: int| 0 <= k < chunks.len() ==> (#[trigger] chunks[k])@ == chunk_of(rows@, page, k),
            batches.len() == i,
            forall|k: int|
                0 <= k < i ==> (#[trigger] batches[k]).deep_view() == chunk_of(
                    artists_of_rows(all),
                    page,
                    k,
                ),
        decreases chunks.len() - i,
    {
        let chunk = &chunks[i];
        let mut batch: Vec<ArtistId> = Vec::new();
        let mut j: usize = 0;
        while j < chunk.len()
            invariant
                j <= chunk.len(),
                batch.len() == j,
                forall|k: int| 0 <= k < j ==> (#[trigger] batch[k])@ == chunk@[k].1@,
            decreases chunk.len() - j,
        {
            batch.push(chunk[j].1.clone());
            j += 1;
        }
        proof {
            let want = chunk_of(artists_of_rows(all), page, i as int);
            let start = i * page;
            let end = if (i + 1) * page <= all.len() {
                (i + 1) * page
            } else {
                all.len() as int
            };
            assert(rows@.len() == all.len());
            assert(artists_of_rows(all).len() == all.len());
            assert(chunk@ == rows@.subrange(start, end));
            assert(want == artists_of_rows(all).subrange(start, end));
            lemma_chunk_lengths(all, page, i as int);
            assert(chunk_of(all, page, i as int) == all.subrange(start, end));
            assert(0 <= start <= end <= all.len());
            assert(batch.deep_view().len() == want.len());
            assert forall|k: int| 0 <= k < want.len() implies batch.deep_view()[k] == want[k] by {
                assert(batch[k]@ == chunk@[k].1@);
                assert(chunk@[k] == rows@[start + k]);
                assert(all[start + k] == rows@[start + k].deep_view());
            }
            assert(batch.deep_view() =~= want);
        }
        batches.push(batch);
        i += 1;
    }
    batches
}

} // verus!
