//! The genres gathered per track: lists that grow while artists resolve, and
//! are brought to canonical form once at the end.

use vstd::prelude::*;
use crate::ids::TrackId;
use crate::keyed::{lemma_key_position, lemma_upsert, lookup, upsert, KeyedList};
use crate::tags::{is_canonical_of, lemma_canonical_unique, sort_dedup, strictly_ascending};

verus! {

/// For each track the tags gathered for it so far, duplicates included.
pub type GenreByTrack = KeyedList<TrackId, Vec<String>>;

/// The tags that stand under `key`; none where the key has no entry.
pub open spec fn tags_of(entries: Seq<(Seq<char>, Seq<Seq<char>>)>, key: Seq<char>) -> Seq<
    Seq<char>,
> {
    match lookup(entries, key) {
        Some(tags) => tags,
        None => Seq::empty(),
    }
}

/// `entries` with `tags` added behind the tags of `track`; a track without an
/// entry gets one.
pub open spec fn appended(
    entries: Seq<(Seq<char>, Seq<Seq<char>>)>,
    track: Seq<char>,
    tags: Seq<Seq<char>>,
) -> Seq<(Seq<char>, Seq<Seq<char>>)> {
    upsert(entries, track, tags_of(entries, track) + tags)
}

/// `after` has the tracks of `before` in the same order, each with its tags
/// in canonical form.
pub open spec fn is_finalized_of(
    after: Seq<(Seq<char>, Seq<Seq<char>>)>,
    before: Seq<(Seq<char>, Seq<Seq<char>>)>,
) -> bool {
    &&& after.len() == before.len()
    &&& forall|i: int|
        0 <= i < before.len() ==> (#[trigger] after[i]).0 == before[i].0 && is_canonical_of(
            after[i].1,
            before[i].1,
        )
}

/// Every list is in canonical form.
pub open spec fn all_canonical(entries: Seq<(Seq<char>, Seq<Seq<char>>)>) -> bool {
    forall|i: int| 0 <= i < entries.len() ==> strictly_ascending((#[trigger] entries[i]).1)
}

/// Finalization has one result.
pub proof fn lemma_finalized_unique(
    before: Seq<(Seq<char>, Seq<Seq<char>>)>,
    a: Seq<(Seq<char>, Seq<Seq<char>>)>,
    b: Seq<(Seq<char>, Seq<Seq<char>>)>,
)
    requires
        is_finalized_of(a, before),
        is_finalized_of(b, before),
    ensures
        a == b,
{
    assert forall|i: int| 0 <= i < a.len() implies a[i] == b[i] by {
        assert(b[i].0 == before[i].0);
        lemma_canonical_unique(a[i].1, b[i].1);
    }
    assert(a =~= b);
}

/// Finalizing what is finalized changes nothing: lists that are sorted and
/// free of duplicates come out as they went in.
pub proof fn lemma_finalize_idempotent(
    before: Seq<(Seq<char>, Seq<Seq<char>>)>,
    after: Seq<(Seq<char>, Seq<Seq<char>>)>,
)
    requires
        all_canonical(before),
        is_finalized_of(after, before),
    ensures
        after == before,
{
    assert(is_finalized_of(before, before));
    lemma_finalized_unique(before, after, before);
}

/// What is finalized is in canonical form throughout.
pub proof fn lemma_finalized_is_canonical(
    before: Seq<(Seq<char>, Seq<Seq<char>>)>,
    after: Seq<(Seq<char>, Seq<Seq<char>>)>,
)
    requires
        is_finalized_of(after, before),
    ensures
        all_canonical(after),
{
}

impl KeyedList<TrackId, Vec<String>> {
    /// Adds `tags` behind the tags gathered for `track`, and makes the entry
    /// where the track has none.
    pub fn append(&mut self, track: TrackId, tags: Vec<String>)
        requires
            old(self).wf(),
        ensures
            final(self).wf(),
            final(self).entries() == appended(old(self).entries(), track@, tags.deep_view()),
            final(self)@ == old(self)@.insert(
                track@,
                tags_of(old(self).entries(), track@) + tags.deep_view(),
            ),
    {
        let ghost before = self.entries();
        let ghost added = tags.deep_view();
        let mut tags = tags;
        proof {
            lemma_key_position(before, track@);
            lemma_upsert(before, track@, tags_of(before, track@) + added);
        }
        match self.position(&track) {
            Some(at) => {
                let mut list = self.replace_at(at, Vec::new());
                let ghost had = list.deep_view();
                list.append(&mut tags);
                assert(list.deep_view() =~= had + added);
                self.replace_at(at, list);
                assert(self.entries() =~= before.update(at as int, (track@, had + added)));
            },
            None => {
                assert(tags_of(before, track@) + added =~= added);
                self.insert(track, tags);
            },
        }
    }

    /// Brings the tags of every track to canonical form: sorted, each tag
    /// once. The tracks and their order stay.
    pub fn finalize(&mut self)
        requires
            old(self).wf(),
        ensures
            final(self).wf(),
            is_finalized_of(final(self).entries(), old(self).entries()),
    {
        let ghost before = self.entries();
        let n = self.len();
        let mut i: usize = 0;
        while i < n
            invariant
                self.wf(),
                n == before.len(),
                i <= n,
                self.entries().len() == n,
                forall|j: int| 0 <= j < n ==> (#[trigger] self.entries()[j]).0 == before[j].0,
                forall|j: int|
                    0 <= j < i ==> is_canonical_of((#[trigger] self.entries()[j]).1, before[j].1),
                forall|j: int| i <= j < n ==> (#[trigger] self.entries()[j]).1 == before[j].1,
            decreases n - i,
        {
            let list = self.replace_at(i, Vec::new());
            let canon = sort_dedup(list);
            self.replace_at(i, canon);
            i += 1;
        }
    }
}

} // verus!
