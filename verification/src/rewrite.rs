//! Planning the rewrite of a file's container: which streams are copied,
//! where the genre tag is written, what becomes of each packet, and under
//! which name the new file is written before it takes the place of the old.

use vstd::prelude::*;
use vstd::string::StringExecFns;
use crate::genres::GenreByTrack;
use crate::ids::TrackId;
use crate::indexer::PathIndex;
use crate::text::{join_strs, join_with};

verus! {

/// What a stream of a container carries.
#[derive(Debug, Clone, Copy, PartialEq, Eq, Structural)]
pub enum MediaKind {
    Audio,
    Video,
    Subtitle,
    Data,
    Attachment,
    Unknown,
}

/// The unit in which the timestamps of a stream count, as a fraction of a
/// second.
#[derive(Debug, Clone, Copy, PartialEq, Eq, Structural)]
pub struct TimeBase {
    pub num: i32,
    pub den: i32,
}

/// A stream of the input container.
#[derive(Debug, Clone, Copy, PartialEq, Eq, Structural)]
pub struct InputStream {
    pub kind: MediaKind,
    pub time_base: TimeBase,
}

/// What becomes of one stream of the input: the stream of the output that
/// takes its packets, if any, and the time base its timestamps count in.
#[derive(Debug, Clone, Copy, PartialEq, Eq, Structural)]
pub struct StreamSlot {
    pub target: Option<usize>,
    pub time_base: TimeBase,
}

/// What to do with a packet of the input.
#[derive(Debug, Clone, Copy, PartialEq, Eq, Structural)]
pub enum PacketAction {
    /// The packet belongs to a stream that is not copied.
    Discard,
    /// The packet goes to stream `output` of the new container, with its
    /// timestamps rescaled from the time base `from` to that stream's, its
    /// byte position set to `position`, and its payload as it is.
    Forward { output: usize, from: TimeBase, position: i64 },
}

/// Where the genre tag is written.
#[derive(Debug, Clone, Copy, PartialEq, Eq, Structural)]
pub enum MetadataTarget {
    /// Among the tags of the container.
    Container,
    /// Among the tags of the primary audio stream: stream `source` of the
    /// input, which is stream `output` of the new container.
    Stream { source: usize, output: usize },
}

/// Why a file cannot be rewritten.
#[derive(Debug, Clone, Copy, PartialEq, Eq, Structural)]
pub enum RewriteError {
    /// The container has no tags of its own and no audio stream to tag.
    NoAudioStream,
    /// The index holds no path for the track.
    MissingPath,
}

/// What to do for one track: the file to rewrite, the name under which the
/// new container is written first, and the value of its genre tag.
#[derive(Debug)]
pub struct RewriteJob {
    pub track: TrackId,
    pub path: String,
    pub temp_path: String,
    pub genre: String,
}

/// The byte position of a packet whose place in its file is not known.
pub const UNKNOWN_POSITION: i64 = -1;

/// The key of the genre tag.
pub const GENRE_KEY: &'static str = "genre";

/// The format of the new container, whatever the format of the old.
pub const OUTPUT_FORMAT: &'static str = "ogg";

/// The character between the tags in the value of the genre tag.
pub const GENRE_SEPARATOR: char = ',';

/// What is added to a file's path to name the new container while it is
/// written.
pub open spec fn temp_suffix() -> Seq<char> {
    ".tmp"@
}

/// The number of audio streams among `kinds`.
pub open spec fn audio_count(kinds: Seq<MediaKind>) -> nat
    decreases kinds.len(),
{
    if kinds.len() == 0 {
        0
    } else {
        audio_count(kinds.drop_last()) + if kinds.last() == MediaKind::Audio {
            1nat
        } else {
            0nat
        }
    }
}

/// The stream of the output that takes the packets of input stream `at`: the
/// audio streams are copied in their order, other streams are dropped.
pub open spec fn stream_target(kinds: Seq<MediaKind>, at: int) -> Option<nat> {
    if 0 <= at < kinds.len() && kinds[at] == MediaKind::Audio {
        Some(audio_count(kinds.take(at)))
    } else {
        None
    }
}

/// The kinds of the streams.
pub open spec fn kinds_of(inputs: Seq<InputStream>) -> Seq<MediaKind> {
    Seq::new(inputs.len(), |i: int| inputs[i].kind)
}

/// The slots are the plan for these input streams.
pub open spec fn is_plan_of(plan: Seq<StreamSlot>, inputs: Seq<InputStream>) -> bool {
    &&& plan.len() == inputs.len()
    &&& forall|i: int|
        0 <= i < inputs.len() ==> {
            &&& (#[trigger] plan[i]).time_base == inputs[i].time_base
            &&& match plan[i].target {
                Some(o) => stream_target(kinds_of(inputs), i) == Some(o as nat),
                None => stream_target(kinds_of(inputs), i) is None,
            }
        }
}

/// What to do with a packet of input stream `stream` under a plan.
pub open spec fn action_for(plan: Seq<StreamSlot>, stream: int) -> PacketAction {
    if 0 <= stream < plan.len() {
        match plan[stream].target {
            Some(output) => PacketAction::Forward {
                output,
                from: plan[stream].time_base,
                position: UNKNOWN_POSITION,
            },
            None => PacketAction::Discard,
        }
    } else {
        PacketAction::Discard
    }
}

/// The output streams of the packets that are forwarded, in the order of the
/// packets; `packets` gives the input stream of each packet.
pub open spec fn forwarded(plan: Seq<StreamSlot>, packets: Seq<int>) -> Seq<int>
    decreases packets.len(),
{
    if packets.len() == 0 {
        Seq::empty()
    } else {
        let rest = forwarded(plan, packets.drop_last());
        match action_for(plan, packets.last()) {
            PacketAction::Forward { output, from, position } => rest.push(output as int),
            PacketAction::Discard => rest,
        }
    }
}

/// How often `stream` occurs in `packets`.
pub open spec fn packets_of(packets: Seq<int>, stream: int) -> nat
    decreases packets.len(),
{
    if packets.len() == 0 {
        0
    } else {
        packets_of(packets.drop_last(), stream) + if packets.last() == stream {
            1nat
        } else {
            0nat
        }
    }
}

/// Counting audio streams up to a later position counts no fewer, and no
/// more than there are positions.
pub proof fn lemma_audio_count_grows(kinds: Seq<MediaKind>, a: int, b: int)
    requires
        0 <= a <= b <= kinds.len(),
    ensures
        audio_count(kinds.take(a)) <= audio_count(kinds.take(b)),
        audio_count(kinds.take(b)) <= b,
    decreases b,
{
    if b > 0 {
        assert(kinds.take(b).drop_last() =~= kinds.take(b - 1));
        if a < b {
            lemma_audio_count_grows(kinds, a, b - 1);
        } else {
            lemma_audio_count_grows(kinds, a - 1, b - 1);
        }
    }
}

/// Two audio streams of the input never share a stream of the output.
pub proof fn lemma_targets_differ(kinds: Seq<MediaKind>, a: int, b: int)
    requires
        0 <= a < b < kinds.len(),
        kinds[a] == MediaKind::Audio,
        kinds[b] == MediaKind::Audio,
    ensures
        stream_target(kinds, a) != stream_target(kinds, b),
        audio_count(kinds.take(a)) < audio_count(kinds.take(b)),
{
    assert(kinds.take(a + 1).drop_last() =~= kinds.take(a));
    assert(kinds.take(a + 1).last() == kinds[a]);
    lemma_audio_count_grows(kinds, a + 1, b);
}

/// Stream copy keeps every packet of an audio stream, once: as many packets
/// reach the stream's place in the output as the input has for the stream,
/// whatever else the input holds.
pub proof fn lemma_packets_preserved(
    inputs: Seq<InputStream>,
    plan: Seq<StreamSlot>,
    packets: Seq<int>,
    stream: int,
)
    requires
        is_plan_of(plan, inputs),
        0 <= stream < inputs.len(),
        inputs[stream].kind == MediaKind::Audio,
    ensures
        plan[stream].target is Some,
        packets_of(forwarded(plan, packets), plan[stream].target.unwrap() as int) == packets_of(
            packets,
            stream,
        ),
    decreases packets.len(),
{
    let kinds = kinds_of(inputs);
    assert(kinds[stream] == MediaKind::Audio);
    assert(stream_target(kinds, stream) is Some);
    let output = plan[stream].target.unwrap() as int;
    if packets.len() > 0 {
        lemma_packets_preserved(inputs, plan, packets.drop_last(), stream);
        let rest = forwarded(plan, packets.drop_last());
        let other = packets.last();
        match action_for(plan, other) {
            PacketAction::Forward { output: to, from, position } => {
                assert(forwarded(plan, packets).drop_last() =~= rest);
                assert(stream_target(kinds, other) == Some(to as nat));
                assert(kinds[other] == MediaKind::Audio);
                if other < stream {
                    lemma_targets_differ(kinds, other, stream);
                } else if stream < other {
                    lemma_targets_differ(kinds, stream, other);
                }
            },
            PacketAction::Discard => {},
        }
    }
}

/// The packets reach the output in the order in which they came.
pub proof fn lemma_forwarded_in_order(plan: Seq<StreamSlot>, earlier: Seq<int>, later: Seq<int>)
    ensures
        forwarded(plan, earlier + later) == forwarded(plan, earlier) + forwarded(plan, later),
    decreases later.len(),
{
    if later.len() == 0 {
        assert(earlier + later =~= earlier);
        assert(forwarded(plan, earlier) + forwarded(plan, later) =~= forwarded(plan, earlier));
    } else {
        lemma_forwarded_in_order(plan, earlier, later.drop_last());
        assert((earlier + later).drop_last() =~= earlier + later.drop_last());
        assert((earlier + later).last() == later.last());
        let a = forwarded(plan, earlier);
        let b = forwarded(plan, later.drop_last());
        match action_for(plan, later.last()) {
            PacketAction::Forward { output, from, position } => {
                assert((a + b).push(output as int) =~= a + b.push(output as int));
            },
            PacketAction::Discard => {},
        }
    }
}

/// Plans the streams of the new container: every audio stream of the input is
/// copied, in the order of the input, and every other stream is dropped.
pub fn plan_streams(inputs: &Vec<InputStream>) -> (plan: Vec<StreamSlot>)
    ensures
        is_plan_of(plan@, inputs@),
{
    let mut plan: Vec<StreamSlot> = Vec::new();
    let mut copied: usize = 0;
    let mut i: usize = 0;
    let ghost kinds = kinds_of(inputs@);
    assert(kinds.take(0) =~= Seq::<MediaKind>::empty());
    while i < inputs.len()
        invariant
            i <= inputs.len(),
            kinds == kinds_of(inputs@),
            plan@.len() == i,
            copied == audio_count(kinds.take(i as int)),
            copied <= i,
            forall|j: int|
                0 <= j < i ==> {
                    &&& (#[trigger] plan@[j]).time_base == inputs@[j].time_base
                    &&& match plan@[j].target {
                        Some(o) => stream_target(kinds, j) == Some(o as nat),
                        None => stream_target(kinds, j) is None,
                    }
                },
        decreases inputs.len() - i,
    {
        let input = inputs[i];
        proof {
            assert(kinds.take(i + 1).drop_last() =~= kinds.take(i as int));
            assert(kinds.take(i + 1).last() == kinds[i as int]);
        }
        if input.kind == MediaKind::Audio {
            plan.push(StreamSlot { target: Some(copied), time_base: input.time_base });
            copied = copied + 1;
        } else {
            plan.push(StreamSlot { target: None, time_base: input.time_base });
        }
        i += 1;
    }
    plan
}

/// Decides what becomes of a packet of input stream `stream`.
pub fn packet_action(plan: &Vec<StreamSlot>, stream: usize) -> (action: PacketAction)
    ensures
        action == action_for(plan@, stream as int),
{
    if stream < plan.len() {
        let slot = plan[stream];
        match slot.target {
            Some(output) => PacketAction::Forward {
                output,
                from: slot.time_base,
                position: UNKNOWN_POSITION,
            },
            None => PacketAction::Discard,
        }
    } else {
        PacketAction::Discard
    }
}

/// Decides where the genre tag is written: among the tags of the container
/// where it has any, and else among those of the primary audio stream, which
/// the caller names by its position in the input.
pub fn metadata_target(container_tags: usize, primary_audio: Option<usize>, plan: &Vec<StreamSlot>) -> (r:
    Result<MetadataTarget, RewriteError>)
    ensures
        r == (if container_tags > 0 {
            Ok::<MetadataTarget, RewriteError>(MetadataTarget::Container)
        } else {
            match primary_audio {
                Some(source) => match action_for(plan@, source as int) {
                    PacketAction::Forward { output, from, position } => Ok(
                        MetadataTarget::Stream { source, output },
                    ),
                    PacketAction::Discard => Err(RewriteError::NoAudioStream),
                },
                None => Err(RewriteError::NoAudioStream),
            }
        }),
{
    if container_tags > 0 {
        return Ok(MetadataTarget::Container);
    }
    match primary_audio {
        Some(source) => match packet_action(plan, source) {
            PacketAction::Forward { output, from, position } => Ok(
                MetadataTarget::Stream { source, output },
            ),
            PacketAction::Discard => Err(RewriteError::NoAudioStream),
        },
        None => Err(RewriteError::NoAudioStream),
    }
}

/// The value of the genre tag: the tags, with a comma between neighbours.
pub fn genre_tag_value(genres: &Vec<String>) -> (value: String)
    ensures
        value@ == join_with(genres.deep_view(), GENRE_SEPARATOR),
{
    join_strs(genres, GENRE_SEPARATOR)
}

/// The name under which the new container is written before it replaces the
/// file at `path`.
pub fn temp_path(path: &str) -> (temp: String)
    ensures
        temp@ == path@ + temp_suffix(),
{
    let mut temp = path.to_owned();
    temp.append(".tmp");
    temp
}

/// Plans the rewrite of the file of one track.
pub fn rewrite_job(index: &PathIndex, track: &TrackId, genres: &Vec<String>) -> (r: Result<
    RewriteJob,
    RewriteError,
>)
    ensures
        match r {
            Ok(job) => {
                &&& index@.contains_key(track@)
                &&& job.track@ == track@
                &&& job.path@ == index@[track@]
                &&& job.temp_path@ == job.path@ + temp_suffix()
                &&& job.genre@ == join_with(genres.deep_view(), GENRE_SEPARATOR)
            },
            Err(e) => e == RewriteError::MissingPath && !index@.contains_key(track@),
        },
{
    match index.get(track) {
        Some(path) => Ok(
            RewriteJob {
                track: track.clone(),
                path: path.clone(),
                temp_path: temp_path(path.as_str()),
                genre: genre_tag_value(genres),
            },
        ),
        None => Err(RewriteError::MissingPath),
    }
}

/// Plans the rewrites of a run: one for every track that has genres, in the
/// order of the tracks.
pub fn rewrite_jobs(index: &PathIndex, genres: &GenreByTrack) -> (jobs: Vec<
    Result<RewriteJob, RewriteError>,
>)
    ensures
        jobs@.len() == genres.entries().len(),
        forall|i: int|
            0 <= i < jobs@.len() ==> match #[trigger] jobs@[i] {
                Ok(job) => {
                    &&& index@.contains_key(genres.entries()[i].0)
                    &&& job.track@ == genres.entries()[i].0
                    &&& job.path@ == index@[genres.entries()[i].0]
                    &&& job.temp_path@ == job.path@ + temp_suffix()
                    &&& job.genre@ == join_with(genres.entries()[i].1, GENRE_SEPARATOR)
                },
                Err(e) => e == RewriteError::MissingPath && !index@.contains_key(
                    genres.entries()[i].0,
                ),
            },
{
    let mut jobs: Vec<Result<RewriteJob, RewriteError>> = Vec::new();
    let n = genres.len();
    let mut i: usize = 0;
    while i < n
        invariant
            n == genres.entries().len(),
            i <= n,
            jobs@.len() == i,
            forall|k: int|
                0 <= k < i ==> match #[trigger] jobs@[k] {
                    Ok(job) => {
                        &&& index@.contains_key(genres.entries()[k].0)
                        &&& job.track@ == genres.entries()[k].0
                        &&& job.path@ == index@[genres.entries()[k].0]
                        &&& job.temp_path@ == job.path@ + temp_suffix()
                        &&& job.genre@ == join_with(genres.entries()[k].1, GENRE_SEPARATOR)
                    },
                    Err(e) => e == RewriteError::MissingPath && !index@.contains_key(
                        genres.entries()[k].0,
                    ),
                },
        decreases n - i,
    {
        let job = rewrite_job(index, genres.key_at(i), genres.value_at(i));
        jobs.push(job);
        i += 1;
    }
    jobs
}

} // verus!
