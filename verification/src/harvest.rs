//! The redistribution pass: what the tracks of a task take from the cache of
//! artist genres, and which artists they still wait for afterwards.

use vstd::prelude::*;
use crate::genres::{appended, tags_of, GenreByTrack};
use crate::ids::{ArtistId, CatalogKey, TrackId};
use crate::keyed::{
    distinct_keys, lemma_key_position, lemma_key_position_is, lemma_key_position_none,
    lemma_upsert, lookup, KeyedList,
};
use crate::tags::copy_tags;
use crate::working::TrackArtistWorkingSet;

verus! {

/// For each artist the genres that the catalog gave for it. A later answer
/// about an artist replaces the earlier one.
pub type ArtistGenreCache = KeyedList<ArtistId, Vec<String>>;

/// `artists` without the first occurrence of `artist`.
pub open spec fn without_first(artists: Seq<Seq<char>>, artist: Seq<char>) -> Seq<Seq<char>>
    decreases artists.len(),
{
    if artists.len() == 0 {
        artists
    } else if artists[0] == artist {
        artists.drop_first()
    } else {
        seq![artists[0]] + without_first(artists.drop_first(), artist)
    }
}

/// The artists that a track still waits for after the pass: its artists
/// without one occurrence, the first, of every artist of the cache.
pub open spec fn pending_after(
    artists: Seq<Seq<char>>,
    cache: Seq<(Seq<char>, Seq<Seq<char>>)>,
) -> Seq<Seq<char>>
    decreases cache.len(),
{
    if cache.len() == 0 {
        artists
    } else {
        without_first(pending_after(artists, cache.drop_last()), cache.last().0)
    }
}

/// The genres that a track takes in the pass: those of every artist of the
/// cache that is among the track's artists, in the order of the cache.
pub open spec fn harvested(
    artists: Seq<Seq<char>>,
    cache: Seq<(Seq<char>, Seq<Seq<char>>)>,
) -> Seq<Seq<char>>
    decreases cache.len(),
{
    if cache.len() == 0 {
        Seq::empty()
    } else {
        harvested(artists, cache.drop_last()) + (if artists.contains(cache.last().0) {
            cache.last().1
        } else {
            Seq::empty()
        })
    }
}

/// Some artist of the cache is among `artists`.
pub open spec fn any_cached(
    artists: Seq<Seq<char>>,
    cache: Seq<(Seq<char>, Seq<Seq<char>>)>,
) -> bool {
    exists|j: int| 0 <= j < cache.len() && artists.contains((#[trigger] cache[j]).0)
}

/// The track took genres in the pass and waits for no artist any more.
pub open spec fn fully_resolved(
    artists: Seq<Seq<char>>,
    cache: Seq<(Seq<char>, Seq<Seq<char>>)>,
) -> bool {
    any_cached(artists, cache) && pending_after(artists, cache).len() == 0
}

/// The working set after the pass: the tracks in their order, each with the
/// artists it still waits for, without the tracks that are fully resolved.
pub open spec fn remaining_after(
    set: Seq<(Seq<char>, Seq<Seq<char>>)>,
    cache: Seq<(Seq<char>, Seq<Seq<char>>)>,
) -> Seq<(Seq<char>, Seq<Seq<char>>)>
    decreases set.len(),
{
    if set.len() == 0 {
        Seq::empty()
    } else {
        let rest = remaining_after(set.drop_last(), cache);
        if fully_resolved(set.last().1, cache) {
            rest
        } else {
            rest.push((set.last().0, pending_after(set.last().1, cache)))
        }
    }
}

/// What the pass contributes: for each track that has an artist in the cache,
/// in the order of the working set, the genres it takes.
pub open spec fn contributions(
    set: Seq<(Seq<char>, Seq<Seq<char>>)>,
    cache: Seq<(Seq<char>, Seq<Seq<char>>)>,
) -> Seq<(Seq<char>, Seq<Seq<char>>)>
    decreases set.len(),
{
    if set.len() == 0 {
        Seq::empty()
    } else {
        let rest = contributions(set.drop_last(), cache);
        if any_cached(set.last().1, cache) {
            rest.push((set.last().0, harvested(set.last().1, cache)))
        } else {
            rest
        }
    }
}

/// The genres per track after the contributions were added, one after the
/// other.
pub open spec fn absorbed(
    entries: Seq<(Seq<char>, Seq<Seq<char>>)>,
    gains: Seq<(Seq<char>, Seq<Seq<char>>)>,
) -> Seq<(Seq<char>, Seq<Seq<char>>)>
    decreases gains.len(),
{
    if gains.len() == 0 {
        entries
    } else {
        appended(absorbed(entries, gains.drop_last()), gains.last().0, gains.last().1)
    }
}

/// Taking out the first occurrence, where its position is known.
pub proof fn lemma_without_first_at(artists: Seq<Seq<char>>, artist: Seq<char>, at: int)
    requires
        0 <= at < artists.len(),
        artists[at] == artist,
        forall|j: int| 0 <= j < at ==> artists[j] != artist,
    ensures
        without_first(artists, artist) == artists.remove(at),
    decreases at,
{
    if at == 0 {
        assert(artists.drop_first() =~= artists.remove(0));
    } else {
        let tail = artists.drop_first();
        assert forall|j: int| 0 <= j < at - 1 implies tail[j] != artist by {
            assert(tail[j] == artists[j + 1]);
        }
        lemma_without_first_at(tail, artist, at - 1);
        assert(seq![artists[0]] + tail.remove(at - 1) =~= artists.remove(at));
    }
}

/// Where the artist does not occur, nothing is taken out.
pub proof fn lemma_without_first_absent(artists: Seq<Seq<char>>, artist: Seq<char>)
    requires
        !artists.contains(artist),
    ensures
        without_first(artists, artist) == artists,
    decreases artists.len(),
{
    if artists.len() > 0 {
        assert(artists[0] != artist);
        let tail = artists.drop_first();
        if tail.contains(artist) {
            let j = choose|j: int| 0 <= j < tail.len() && tail[j] == artist;
            assert(artists[j + 1] == artist);
        }
        lemma_without_first_absent(tail, artist);
        assert(seq![artists[0]] + tail =~= artists);
    }
}

/// Taking out one artist leaves every other artist in the list.
pub proof fn lemma_without_first_keeps(
    artists: Seq<Seq<char>>,
    artist: Seq<char>,
    other: Seq<char>,
)
    requires
        other != artist,
    ensures
        without_first(artists, artist).contains(other) == artists.contains(other),
    decreases artists.len(),
{
    if artists.len() > 0 {
        let tail = artists.drop_first();
        let out = without_first(artists, artist);
        lemma_without_first_keeps(tail, artist, other);
        if artists.contains(other) {
            let j = choose|j: int| 0 <= j < artists.len() && artists[j] == other;
            if j > 0 {
                assert(tail[j - 1] == other);
                assert(tail.contains(other));
            }
            if artists[0] == artist {
                assert(out.contains(other));
            } else {
                if j == 0 {
                    assert(out[0] == other);
                } else {
                    let k = choose|k: int|
                        0 <= k < without_first(tail, artist).len() && without_first(tail, artist)[k]
                            == other;
                    assert(out[k + 1] == other);
                }
            }
        }
        if out.contains(other) {
            let k = choose|k: int| 0 <= k < out.len() && out[k] == other;
            if artists[0] == artist {
                assert(artists[k + 1] == other);
            } else if k == 0 {
                assert(artists[0] == other);
            } else {
                assert(without_first(tail, artist)[k - 1] == other);
                assert(without_first(tail, artist).contains(other));
                let j = choose|j: int| 0 <= j < tail.len() && tail[j] == other;
                assert(artists[j + 1] == other);
            }
        }
    }
}

/// An artist that the cache does not hold is still waited for after the pass
/// exactly where it was waited for before.
pub proof fn lemma_pending_keeps(
    artists: Seq<Seq<char>>,
    cache: Seq<(Seq<char>, Seq<Seq<char>>)>,
    other: Seq<char>,
)
    requires
        forall|j: int| 0 <= j < cache.len() ==> (#[trigger] cache[j]).0 != other,
    ensures
        pending_after(artists, cache).contains(other) == artists.contains(other),
    decreases cache.len(),
{
    if cache.len() > 0 {
        let front = cache.drop_last();
        assert forall|j: int| 0 <= j < front.len() implies (#[trigger] front[j]).0 != other by {
            assert(front[j] == cache[j]);
        }
        lemma_pending_keeps(artists, front, other);
        assert(cache[cache.len() - 1].0 != other);
        lemma_without_first_keeps(pending_after(artists, front), cache.last().0, other);
    }
}

/// Taking out an artist adds none: whoever is in the list afterwards was in
/// it before.
pub proof fn lemma_without_first_subset(
    artists: Seq<Seq<char>>,
    artist: Seq<char>,
    other: Seq<char>,
)
    requires
        without_first(artists, artist).contains(other),
    ensures
        artists.contains(other),
    decreases artists.len(),
{
    if other != artist {
        lemma_without_first_keeps(artists, artist, other);
    } else if artists.len() > 0 {
        let out = without_first(artists, artist);
        let k = choose|k: int| 0 <= k < out.len() && out[k] == other;
        if artists[0] == artist {
            assert(artists[0] == other);
        } else {
            let tail = artists.drop_first();
            if k == 0 {
                assert(artists[0] == other);
            } else {
                assert(without_first(tail, artist)[k - 1] == other);
                lemma_without_first_subset(tail, artist, other);
                let j = choose|j: int| 0 <= j < tail.len() && tail[j] == other;
                assert(artists[j + 1] == other);
            }
        }
    }
}

/// An artist that was listed once is gone once it is taken out, and a list
/// without repetitions stays without.
pub proof fn lemma_without_first_of_distinct(artists: Seq<Seq<char>>, artist: Seq<char>)
    requires
        artists.no_duplicates(),
    ensures
        !without_first(artists, artist).contains(artist),
        without_first(artists, artist).no_duplicates(),
    decreases artists.len(),
{
    if artists.len() > 0 {
        let tail = artists.drop_first();
        let out = without_first(artists, artist);
        assert forall|i: int, j: int| 0 <= i < j < tail.len() implies tail[i] != tail[j] by {
            assert(artists[i + 1] != artists[j + 1]);
        }
        if artists[0] == artist {
            if tail.contains(artist) {
                let j = choose|j: int| 0 <= j < tail.len() && tail[j] == artist;
                assert(artists[j + 1] == artists[0]);
            }
        } else {
            lemma_without_first_of_distinct(tail, artist);
            let rest = without_first(tail, artist);
            if out.contains(artist) {
                let k = choose|k: int| 0 <= k < out.len() && out[k] == artist;
                assert(rest[k - 1] == artist);
            }
            assert forall|i: int, j: int| 0 <= i < j < out.len() implies out[i] != out[j] by {
                if i == 0 {
                    assert(rest[j - 1] == out[j]);
                    assert(rest.contains(out[j]));
                    lemma_without_first_subset(tail, artist, out[j]);
                    let m = choose|m: int| 0 <= m < tail.len() && tail[m] == out[j];
                    assert(artists[m + 1] != artists[0]);
                } else {
                    assert(rest[i - 1] != rest[j - 1]);
                }
            }
        }
    }
}

/// After the pass a track waits only for artists it waited for before, and,
/// where its artists were listed once each, for none that the cache holds.
pub proof fn lemma_pending_unresolved(
    artists: Seq<Seq<char>>,
    cache: Seq<(Seq<char>, Seq<Seq<char>>)>,
)
    ensures
        forall|other: Seq<char>| #[trigger]
            pending_after(artists, cache).contains(other) ==> artists.contains(other),
        artists.no_duplicates() ==> pending_after(artists, cache).no_duplicates(),
        artists.no_duplicates() ==> forall|j: int|
            0 <= j < cache.len() ==> !pending_after(artists, cache).contains((#[trigger] cache[j]).0),
    decreases cache.len(),
{
    if cache.len() > 0 {
        let front = cache.drop_last();
        let before = pending_after(artists, front);
        let after = pending_after(artists, cache);
        let last = cache.last().0;
        lemma_pending_unresolved(artists, front);
        assert forall|other: Seq<char>| #[trigger] after.contains(other) implies artists.contains(
            other,
        ) by {
            lemma_without_first_subset(before, last, other);
        }
        if artists.no_duplicates() {
            lemma_without_first_of_distinct(before, last);
            assert forall|j: int| 0 <= j < cache.len() implies !after.contains(
                (#[trigger] cache[j]).0,
            ) by {
                if j < front.len() {
                    assert(front[j] == cache[j]);
                    if after.contains(cache[j].0) {
                        lemma_without_first_subset(before, last, cache[j].0);
                    }
                }
            }
        }
    }
}

/// A key that the working set does not hold is not among what remains of it.
pub proof fn lemma_remaining_lacks(
    set: Seq<(Seq<char>, Seq<Seq<char>>)>,
    cache: Seq<(Seq<char>, Seq<Seq<char>>)>,
    key: Seq<char>,
)
    requires
        forall|j: int| 0 <= j < set.len() ==> (#[trigger] set[j]).0 != key,
    ensures
        forall|j: int|
            0 <= j < remaining_after(set, cache).len() ==> (#[trigger] remaining_after(
                set,
                cache,
            )[j]).0 != key,
    decreases set.len(),
{
    if set.len() > 0 {
        let front = set.drop_last();
        assert forall|j: int| 0 <= j < front.len() implies (#[trigger] front[j]).0 != key by {
            assert(front[j] == set[j]);
        }
        lemma_remaining_lacks(front, cache, key);
        assert(set[set.len() - 1].0 != key);
        let rest = remaining_after(front, cache);
        let out = remaining_after(set, cache);
        assert forall|j: int| 0 <= j < out.len() implies (#[trigger] out[j]).0 != key by {
            if j < rest.len() {
                assert(out[j] == rest[j]);
            }
        }
    }
}

/// A key that the working set does not hold gets no contribution.
pub proof fn lemma_contributions_lack(
    set: Seq<(Seq<char>, Seq<Seq<char>>)>,
    cache: Seq<(Seq<char>, Seq<Seq<char>>)>,
    key: Seq<char>,
)
    requires
        forall|j: int| 0 <= j < set.len() ==> (#[trigger] set[j]).0 != key,
    ensures
        forall|j: int|
            0 <= j < contributions(set, cache).len() ==> (#[trigger] contributions(set, cache)[j]).0
                != key,
    decreases set.len(),
{
    if set.len() > 0 {
        let front = set.drop_last();
        assert forall|j: int| 0 <= j < front.len() implies (#[trigger] front[j]).0 != key by {
            assert(front[j] == set[j]);
        }
        lemma_contributions_lack(front, cache, key);
        assert(set[set.len() - 1].0 != key);
        let rest = contributions(front, cache);
        let out = contributions(set, cache);
        assert forall|j: int| 0 <= j < out.len() implies (#[trigger] out[j]).0 != key by {
            if j < rest.len() {
                assert(out[j] == rest[j]);
            }
        }
    }
}

/// Contributions leave the genres of every track alone that they do not name,
/// and keep the tracks distinct.
pub proof fn lemma_absorbed_other(
    entries: Seq<(Seq<char>, Seq<Seq<char>>)>,
    gains: Seq<(Seq<char>, Seq<Seq<char>>)>,
    key: Seq<char>,
)
    requires
        distinct_keys(entries),
        forall|j: int| 0 <= j < gains.len() ==> (#[trigger] gains[j]).0 != key,
    ensures
        distinct_keys(absorbed(entries, gains)),
        lookup(absorbed(entries, gains), key) == lookup(entries, key),
    decreases gains.len(),
{
    if gains.len() > 0 {
        let front = gains.drop_last();
        assert forall|j: int| 0 <= j < front.len() implies (#[trigger] front[j]).0 != key by {
            assert(front[j] == gains[j]);
        }
        lemma_absorbed_other(entries, front, key);
        let mid = absorbed(entries, front);
        assert(gains[gains.len() - 1].0 != key);
        lemma_upsert(mid, gains.last().0, tags_of(mid, gains.last().0) + gains.last().1);
    }
}

/// Contributions keep the tracks distinct.
pub proof fn lemma_absorbed_distinct(
    entries: Seq<(Seq<char>, Seq<Seq<char>>)>,
    gains: Seq<(Seq<char>, Seq<Seq<char>>)>,
)
    requires
        distinct_keys(entries),
    ensures
        distinct_keys(absorbed(entries, gains)),
    decreases gains.len(),
{
    if gains.len() > 0 {
        let front = gains.drop_last();
        lemma_absorbed_distinct(entries, front);
        let mid = absorbed(entries, front);
        lemma_upsert(mid, gains.last().0, tags_of(mid, gains.last().0) + gains.last().1);
    }
}

/// What the pass leaves of one track: a track that is fully resolved is gone
/// from the working set, and any other track stays with the artists it still
/// waits for.
pub proof fn lemma_remaining_of_track(
    set: Seq<(Seq<char>, Seq<Seq<char>>)>,
    cache: Seq<(Seq<char>, Seq<Seq<char>>)>,
    at: int,
)
    requires
        distinct_keys(set),
        0 <= at < set.len(),
    ensures
        lookup(remaining_after(set, cache), set[at].0) == (if fully_resolved(set[at].1, cache) {
            None
        } else {
            Some(pending_after(set[at].1, cache))
        }),
    decreases set.len(),
{
    let front = set.drop_last();
    let rest = remaining_after(front, cache);
    let out = remaining_after(set, cache);
    let last = set.len() - 1;
    let key = set[at].0;
    if at == last {
        assert forall|j: int| 0 <= j < front.len() implies (#[trigger] front[j]).0 != key by {
            assert(front[j] == set[j]);
            assert(set[j].0 != set[last].0);
        }
        lemma_remaining_lacks(front, cache, key);
        if fully_resolved(set[at].1, cache) {
            lemma_key_position_none(rest, key);
        } else {
            lemma_key_position_is(out, key, rest.len() as int);
        }
    } else {
        assert(front[at] == set[at]);
        assert forall|i: int, j: int| 0 <= i < j < front.len() implies (#[trigger] front[i]).0 != (
        #[trigger] front[j]).0 by {
            assert(front[i] == set[i] && front[j] == set[j]);
        }
        lemma_remaining_of_track(front, cache, at);
        assert(set[at].0 != set[last].0);
        if !fully_resolved(set.last().1, cache) {
            assert(out.drop_last() =~= rest);
            lemma_key_position(rest, key);
        }
    }
}

/// What the pass gives one track: the genres gathered for it grow by the
/// genres of those of its artists that the cache holds, and by nothing where
/// the cache holds none of them.
pub proof fn lemma_gain_of_track(
    entries: Seq<(Seq<char>, Seq<Seq<char>>)>,
    set: Seq<(Seq<char>, Seq<Seq<char>>)>,
    cache: Seq<(Seq<char>, Seq<Seq<char>>)>,
    at: int,
)
    requires
        distinct_keys(entries),
        distinct_keys(set),
        0 <= at < set.len(),
    ensures
        tags_of(absorbed(entries, contributions(set, cache)), set[at].0) == tags_of(
            entries,
            set[at].0,
        ) + harvested(set[at].1, cache),
        any_cached(set[at].1, cache) ==> lookup(
            absorbed(entries, contributions(set, cache)),
            set[at].0,
        ) is Some,
    decreases set.len(),
{
    let front = set.drop_last();
    let gains_front = contributions(front, cache);
    let gains = contributions(set, cache);
    let last = set.len() - 1;
    let key = set[at].0;
    let mid = absorbed(entries, gains_front);
    lemma_absorbed_distinct(entries, gains_front);
    if any_cached(set.last().1, cache) {
        assert(gains.drop_last() =~= gains_front);
        assert(gains.last() == (set.last().0, harvested(set.last().1, cache)));
        lemma_upsert(mid, set.last().0, tags_of(mid, set.last().0) + harvested(set.last().1, cache));
    }
    if at == last {
        assert forall|j: int| 0 <= j < front.len() implies (#[trigger] front[j]).0 != key by {
            assert(front[j] == set[j]);
            assert(set[j].0 != set[last].0);
        }
        lemma_contributions_lack(front, cache, key);
        lemma_absorbed_other(entries, gains_front, key);
        if !any_cached(set[at].1, cache) {
            lemma_harvested_none(set[at].1, cache);
            assert(tags_of(entries, key) + Seq::<Seq<char>>::empty() =~= tags_of(entries, key));
        }
    } else {
        assert(front[at] == set[at]);
        assert forall|i: int, j: int| 0 <= i < j < front.len() implies (#[trigger] front[i]).0 != (
        #[trigger] front[j]).0 by {
            assert(front[i] == set[i] && front[j] == set[j]);
        }
        lemma_gain_of_track(entries, front, cache, at);
        assert(set[at].0 != set[last].0);
    }
}

/// A track none of whose artists is in the cache takes no genres.
pub proof fn lemma_harvested_none(
    artists: Seq<Seq<char>>,
    cache: Seq<(Seq<char>, Seq<Seq<char>>)>,
)
    requires
        !any_cached(artists, cache),
    ensures
        harvested(artists, cache) == Seq::<Seq<char>>::empty(),
        pending_after(artists, cache) == artists,
    decreases cache.len(),
{
    if cache.len() > 0 {
        let front = cache.drop_last();
        if any_cached(artists, front) {
            let k = choose|k: int| 0 <= k < front.len() && artists.contains((#[trigger] front[k]).0);
            assert(cache[k] == front[k]);
        }
        lemma_harvested_none(artists, front);
        assert(!artists.contains(cache[cache.len() - 1].0));
        lemma_without_first_absent(artists, cache.last().0);
        assert(harvested(artists, cache) =~= Seq::<Seq<char>>::empty());
    }
}

/// A track that waits for two artists, of which the cache holds only the
/// first: after the pass the track has the first artist's genres, is still in
/// the working set, and waits for the second artist alone.
pub proof fn lemma_partial_resolution(
    entries: Seq<(Seq<char>, Seq<Seq<char>>)>,
    track: Seq<char>,
    first: Seq<char>,
    second: Seq<char>,
    genres: Seq<Seq<char>>,
)
    requires
        distinct_keys(entries),
        first != second,
    ensures
        ({
            let set = seq![(track, seq![first, second])];
            let cache = seq![(first, genres)];
            &&& remaining_after(set, cache) == seq![(track, seq![second])]
            &&& contributions(set, cache) == seq![(track, genres)]
            &&& tags_of(absorbed(entries, contributions(set, cache)), track) == tags_of(
                entries,
                track,
            ) + genres
        }),
{
    let artists = seq![first, second];
    let set = seq![(track, artists)];
    let cache = seq![(first, genres)];
    assert(cache.drop_last() =~= Seq::<(Seq<char>, Seq<Seq<char>>)>::empty());
    assert(set.drop_last() =~= Seq::<(Seq<char>, Seq<Seq<char>>)>::empty());
    assert(artists[0] == first);
    assert(artists.contains(first));
    assert(artists.contains(cache[0].0));
    assert(any_cached(artists, cache));
    assert(pending_after(artists, cache.drop_last()) == artists);
    assert(without_first(artists, first) =~= seq![second]);
    assert(pending_after(artists, cache) == seq![second]);
    assert(harvested(artists, cache.drop_last()) =~= Seq::<Seq<char>>::empty());
    assert(harvested(artists, cache) =~= genres);
    let none = Seq::<(Seq<char>, Seq<Seq<char>>)>::empty();
    assert(set.last() == (track, artists));
    assert(remaining_after(set.drop_last(), cache) == none);
    assert(contributions(set.drop_last(), cache) == none);
    assert(!fully_resolved(artists, cache));
    assert(remaining_after(set, cache) =~= seq![(track, seq![second])]);
    assert(contributions(set, cache) =~= seq![(track, genres)]);
    assert(distinct_keys(set));
    lemma_gain_of_track(entries, set, cache, 0);
}

/// What one track takes from the cache.
#[derive(Debug)]
pub struct Resolution {
    /// Whether any of the track's artists is in the cache.
    pub matched: bool,
    /// The artists that the track still waits for.
    pub pending: Vec<ArtistId>,
    /// The genres that the track takes.
    pub tags: Vec<String>,
}

/// The first position of `artist` in `list`.
fn first_of(list: &Vec<ArtistId>, artist: &ArtistId) -> (at: Option<usize>)
    ensures
        match at {
            Some(p) => p < list.len() && list.deep_view()[p as int] == artist@ && forall|j: int|
                0 <= j < p ==> list.deep_view()[j] != artist@,
            None => !list.deep_view().contains(artist@),
        },
{
    let mut p: usize = 0;
    while p < list.len()
        invariant
            p <= list.len(),
            forall|j: int| 0 <= j < p ==> list.deep_view()[j] != artist@,
        decreases list.len() - p,
    {
        if list[p].same_as(artist) {
            return Some(p);
        }
        p += 1;
    }
    None
}

/// Resolves the artists of one track against the cache: for every artist of
/// the cache, in its order, that the track waits for, the track takes the
/// artist's genres and stops waiting for it.
pub fn resolve_artists(artists: &Vec<ArtistId>, cache: &ArtistGenreCache) -> (r: Resolution)
    requires
        cache.wf(),
    ensures
        r.matched == any_cached(artists.deep_view(), cache.entries()),
        r.pending.deep_view() == pending_after(artists.deep_view(), cache.entries()),
        r.tags.deep_view() == harvested(artists.deep_view(), cache.entries()),
{
    let ghost waiting = artists.deep_view();
    let ghost all = cache.entries();
    let mut pending: Vec<ArtistId> = Vec::new();
    let mut c: usize = 0;
    while c < artists.len()
        invariant
            c <= artists.len(),
            waiting == artists.deep_view(),
            pending.deep_view() == waiting.take(c as int),
        decreases artists.len() - c,
    {
        let ghost had = pending.deep_view();
        pending.push(artists[c].clone());
        assert(pending.deep_view() =~= had.push(waiting[c as int]));
        assert(waiting.take(c + 1) =~= waiting.take(c as int).push(waiting[c as int]));
        c += 1;
    }
    assert(waiting.take(artists.len() as int) =~= waiting);
    let mut tags: Vec<String> = Vec::new();
    let mut matched = false;
    let n = cache.len();
    let mut j: usize = 0;
    assert(all.take(0) =~= Seq::<(Seq<char>, Seq<Seq<char>>)>::empty());
    assert(tags.deep_view() =~= harvested(waiting, all.take(0)));
    while j < n
        invariant
            cache.wf(),
            all == cache.entries(),
            n == all.len(),
            j <= n,
            pending.deep_view() == pending_after(waiting, all.take(j as int)),
            tags.deep_view() == harvested(waiting, all.take(j as int)),
            matched == any_cached(waiting, all.take(j as int)),
        decreases n - j,
    {
        let artist = cache.key_at(j);
        let genres = cache.value_at(j);
        let ghost seen = all.take(j as int);
        let ghost next = all.take(j + 1);
        let ghost before = pending.deep_view();
        let ghost gathered = tags.deep_view();
        proof {
            assert(next.drop_last() =~= seen);
            assert(next.last() == all[j as int]);
            assert forall|k: int| 0 <= k < seen.len() implies (#[trigger] seen[k]).0 != artist.text() by {
                assert(seen[k] == all[k]);
                assert(all[k].0 != all[j as int].0);
            }
            lemma_pending_keeps(waiting, seen, artist.text());
            if any_cached(waiting, seen) {
                let k = choose|k: int| 0 <= k < seen.len() && waiting.contains((#[trigger] seen[k]).0);
                assert(next[k] == seen[k]);
            }
            if any_cached(waiting, next) && !waiting.contains(artist.text()) {
                let k = choose|k: int| 0 <= k < next.len() && waiting.contains((#[trigger] next[k]).0);
                assert(seen[k] == next[k]);
            }
            if waiting.contains(artist.text()) {
                assert(waiting.contains(next[j as int].0));
            }
        }
        match first_of(&pending, artist) {
            Some(at) => {
                pending.remove(at);
                let mut gained = copy_tags(genres);
                tags.append(&mut gained);
                matched = true;
                proof {
                    assert(before.contains(artist.text()));
                    lemma_without_first_at(before, artist.text(), at as int);
                    assert(pending.deep_view() =~= before.remove(at as int));
                    assert(tags.deep_view() =~= gathered + all[j as int].1);
                }
            },
            None => {
                proof {
                    lemma_without_first_absent(before, artist.text());
                    assert(gathered + Seq::<Seq<char>>::empty() =~= gathered);
                }
            },
        }
        j += 1;
    }
    assert(all.take(n as int) =~= all);
    Resolution { matched, pending, tags }
}

/// A copy of the cache as it stands, to run a pass against while others go on
/// filling the cache.
pub fn snapshot(cache: &ArtistGenreCache) -> (copy: ArtistGenreCache)
    requires
        cache.wf(),
    ensures
        copy.wf(),
        copy.entries() == cache.entries(),
{
    let mut copy = ArtistGenreCache::new();
    let n = cache.len();
    let mut i: usize = 0;
    while i < n
        invariant
            cache.wf(),
            copy.wf(),
            n == cache.entries().len(),
            i <= n,
            copy.entries() == cache.entries().take(i as int),
        decreases n - i,
    {
        let artist = cache.key_at(i);
        proof {
            let done = copy.entries();
            assert forall|k: int| 0 <= k < done.len() implies (#[trigger] done[k]).0
                != artist.text() by {
                assert(done[k] == cache.entries()[k]);
                assert(cache.entries()[k].0 != cache.entries()[i as int].0);
            }
            lemma_key_position_none(done, artist.text());
            assert(cache.entries().take(i + 1) =~= done.push(cache.entries()[i as int]));
        }
        copy.push_absent(artist.duplicate(), copy_tags(cache.value_at(i)));
        i += 1;
    }
    assert(cache.entries().take(n as int) =~= cache.entries());
    copy
}

/// Runs the pass on the working set of a task and hands back what it
/// contributes. Every track that has an artist in the cache takes that
/// artist's genres and stops waiting for it; a track that then waits for
/// nothing leaves the working set. What stays in the working set is
/// unresolved as far as this cache goes.
pub fn harvest(set: &mut TrackArtistWorkingSet, cache: &ArtistGenreCache) -> (gains: Vec<
    (TrackId, Vec<String>),
>)
    requires
        old(set).wf(),
        cache.wf(),
    ensures
        final(set).wf(),
        final(set).entries() == remaining_after(old(set).entries(), cache.entries()),
        gains.deep_view() == contributions(old(set).entries(), cache.entries()),
{
    let ghost before = set.entries();
    let ghost all = cache.entries();
    let mut kept = TrackArtistWorkingSet::new();
    let mut gains: Vec<(TrackId, Vec<String>)> = Vec::new();
    let n = set.len();
    let mut i: usize = 0;
    assert(before.take(0) =~= Seq::<(Seq<char>, Seq<Seq<char>>)>::empty());
    assert(gains.deep_view() =~= contributions(before.take(0), all));
    while i < n
        invariant
            set.wf(),
            cache.wf(),
            kept.wf(),
            before == set.entries(),
            all == cache.entries(),
            n == before.len(),
            i <= n,
            kept.entries() == remaining_after(before.take(i as int), all),
            gains.deep_view() == contributions(before.take(i as int), all),
        decreases n - i,
    {
        let track = set.key_at(i);
        let resolution = resolve_artists(set.value_at(i), cache);
        let ghost seen = before.take(i as int);
        let ghost next = before.take(i + 1);
        let ghost had = gains.deep_view();
        proof {
            assert(next.drop_last() =~= seen);
            assert(next.last() == before[i as int]);
            assert forall|k: int| 0 <= k < seen.len() implies (#[trigger] seen[k]).0 != track.text() by {
                assert(seen[k] == before[k]);
                assert(before[k].0 != before[i as int].0);
            }
            lemma_remaining_lacks(seen, all, track.text());
            lemma_key_position_none(kept.entries(), track.text());
        }
        let Resolution { matched, pending, tags } = resolution;
        if matched {
            gains.push((track.duplicate(), tags));
            assert(gains.deep_view() =~= had.push((before[i as int].0, harvested(before[i as int].1, all))));
        }
        if !(matched && pending.len() == 0) {
            kept.push_absent(track.duplicate(), pending);
        }
        i += 1;
    }
    assert(before.take(n as int) =~= before);
    *set = kept;
    gains
}

/// The redistribution pass as a whole: the working set gives up what the
/// cache resolves, and the genres per track grow by what the pass
/// contributes.
pub fn redistribute(
    set: &mut TrackArtistWorkingSet,
    cache: &ArtistGenreCache,
    genres: &mut GenreByTrack,
)
    requires
        old(set).wf(),
        cache.wf(),
        old(genres).wf(),
    ensures
        final(set).wf(),
        final(genres).wf(),
        final(set).entries() == remaining_after(old(set).entries(), cache.entries()),
        final(genres).entries() == absorbed(
            old(genres).entries(),
            contributions(old(set).entries(), cache.entries()),
        ),
{
    let gains = harvest(set, cache);
    absorb(genres, &gains);
}

/// Adds the contributions of a pass to the genres per track, one after the
/// other.
pub fn absorb(genres: &mut GenreByTrack, gains: &Vec<(TrackId, Vec<String>)>)
    requires
        old(genres).wf(),
    ensures
        final(genres).wf(),
        final(genres).entries() == absorbed(old(genres).entries(), gains.deep_view()),
{
    let ghost before = genres.entries();
    let ghost all = gains.deep_view();
    let mut i: usize = 0;
    assert(all.take(0) =~= Seq::<(Seq<char>, Seq<Seq<char>>)>::empty());
    while i < gains.len()
        invariant
            genres.wf(),
            all == gains.deep_view(),
            i <= gains.len(),
            genres.entries() == absorbed(before, all.take(i as int)),
        decreases gains.len() - i,
    {
        proof {
            let next = all.take(i + 1);
            assert(next.drop_last() =~= all.take(i as int));
            assert(next.last() == all[i as int]);
        }
        genres.append(gains[i].0.clone(), copy_tags(&gains[i].1));
        i += 1;
    }
    assert(all.take(gains.len() as int) =~= all);
}

} // verus!
