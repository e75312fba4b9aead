//! What holds of topics: how appends, rollovers, reads and loads go
//! together.

use vstd::prelude::*;

use crate::message::encoding;
use crate::queue::listing::{
    ascending, holding_of, holdings, lemma_arranged_is_unique, listed, Holding, SegmentFileView,
};
use crate::queue::topic::{
    active_place, claiming_place, directory_of, fresh, is_active_place, is_claiming_place,
    TopicMetadataView, TopicView,
};
use crate::storage::naming::{
    base_offset_of, lemma_log_name_is_read_back, log_name, names_log, path_in,
};
use crate::storage::segment::{
    frame, lemma_lookup_extends, lemma_lookup_steps_over_frame, lemma_sound_below_grows,
    lemma_sound_below_lacks, lemma_sound_below_widens, lookup, sound_below, Lookup, Segment,
    SegmentView,
};

verus! {

/// How many offsets one segment claims.
pub open spec fn span() -> int {
    Segment::DEFAULT_MESSAGE_COUNT + 1
}

impl TopicView {
    /// Whether every segment is a run of whole frames whose messages are
    /// stored under offsets below the next offset.
    pub open spec fn sound(self) -> bool {
        forall|i: int|
            0 <= i < self.segments.len() ==> sound_below(
                (#[trigger] self.segments[i]).log,
                self.next_offset,
            )
    }

    /// Whether the segments part the offsets below the next offset among
    /// them without a gap: the first starts at offset 0, each further one
    /// where the one before it stops to claim, and the next offset is not
    /// beyond what the last one claims.
    pub open spec fn contiguous(self) -> bool {
        &&& forall|i: int|
            0 <= i < self.segments.len() ==> (#[trigger] self.segments[i]).base_offset == i
                * span()
        &&& self.next_offset <= self.segments.len() * span()
    }

    /// The topic after each of `payloads` was stored, in order.
    pub open spec fn appended_all(self, payloads: Seq<Seq<char>>) -> TopicView
        decreases payloads.len(),
    {
        if payloads.len() == 0 {
            self
        } else {
            self.appended_all(payloads.drop_last()).appended(payloads.last())
        }
    }
}

/// Appends hand out the offsets in order, without a gap and without a
/// repeat, however many segments there are: after `count` appends the next
/// offset is `count` higher than before, and it is the offset under which
/// the append that follows stores its message.
pub proof fn lemma_offsets_count_up(topic: TopicView, payloads: Seq<Seq<char>>, count: int)
    requires
        0 <= count <= payloads.len(),
        topic.next_offset + payloads.len() <= u64::MAX,
    ensures
        topic.appended_all(payloads.take(count)).next_offset == topic.next_offset + count,
        count < payloads.len() ==> topic.appended_all(payloads.take(count)).message_for(
            payloads[count],
        ).offset == topic.next_offset + count,
    decreases count,
{
    if count > 0 {
        lemma_offsets_count_up(topic, payloads, count - 1);
        assert(payloads.take(count).drop_last() =~= payloads.take(count - 1));
    }
}

/// An append leaves a sound topic sound.
pub proof fn lemma_append_keeps_sound(topic: TopicView, payload: Seq<char>)
    requires
        topic.sound(),
        topic.accepts(payload),
        topic.next_offset < u64::MAX,
    ensures
        topic.appended(payload).sound(),
{
    let after = topic.appended(payload);
    let place = active_place(topic.segments)->0;
    assert(is_active_place(topic.segments, place));
    assert forall|i: int| 0 <= i < after.segments.len() implies sound_below(
        (#[trigger] after.segments[i]).log,
        after.next_offset,
    ) by {
        lemma_sound_below_widens(topic.segments[i].log, topic.next_offset, after.next_offset);
        if i == place {
            lemma_sound_below_grows(
                topic.segments[i].log,
                after.next_offset,
                topic.message_for(payload),
            );
        }
    }
}

/// A read of the offset that an append has just given out returns the
/// message that was stored, where nothing was stored under that offset
/// before and the segment that takes appends is the first one to claim it.
pub proof fn lemma_read_after_append(topic: TopicView, payload: Seq<char>)
    requires
        topic.accepts(payload),
        topic.next_offset < u64::MAX,
        claiming_place(topic.segments, topic.next_offset) == active_place(topic.segments),
        topic.read(topic.next_offset) == Lookup::Absent,
    ensures
        topic.appended(payload).read(topic.next_offset) == Lookup::Found(
            topic.message_for(payload),
        ),
{
    let after = topic.appended(payload);
    let offset = topic.next_offset;
    let message = topic.message_for(payload);
    let place = active_place(topic.segments)->0;
    assert(is_claiming_place(topic.segments, offset, place));
    assert(is_claiming_place(after.segments, offset, place)) by {
        assert forall|j: int| 0 <= j < place implies !(
        #[trigger] after.segments[j]).contains_offset(offset) by {
            assert(!topic.segments[j].contains_offset(offset));
        }
    }
    lemma_lookup_extends(topic.segments[place].log, frame(encoding(message)), offset);
    lemma_lookup_steps_over_frame(message, Seq::empty(), offset);
    assert(frame(encoding(message)) + Seq::<u8>::empty() =~= frame(encoding(message)));
}

/// A sound topic holds nothing at or beyond its next offset: a read there
/// finds nothing.
pub proof fn lemma_nothing_beyond_next(topic: TopicView, offset: u64)
    requires
        topic.sound(),
        offset >= topic.next_offset,
    ensures
        topic.read(offset) == Lookup::Absent,
{
    match claiming_place(topic.segments, offset) {
        Some(place) => {
            assert(is_claiming_place(topic.segments, offset, place));
            lemma_sound_below_lacks(topic.segments[place].log, topic.next_offset, offset);
        },
        None => {},
    }
}

/// Where one segment and no other claims an offset, a read of the offset is
/// the scan of that segment.
pub proof fn lemma_read_goes_to_sole_claimant(topic: TopicView, offset: u64, place: int)
    requires
        0 <= place < topic.segments.len(),
        forall|i: int|
            0 <= i < topic.segments.len() ==> ((#[trigger] topic.segments[i]).contains_offset(
                offset,
            ) <==> i == place),
    ensures
        claiming_place(topic.segments, offset) == Some(place),
        topic.read(offset) == lookup(topic.segments[place].log, offset),
{
    assert(is_claiming_place(topic.segments, offset, place));
}

/// In a topic whose segments part the offsets without a gap, each offset
/// below the next offset is claimed by one segment and no other, and a read
/// of it is the scan of that segment.
pub proof fn lemma_one_segment_claims(topic: TopicView, offset: u64) -> (place: int)
    requires
        topic.contiguous(),
        offset < topic.next_offset,
    ensures
        0 <= place < topic.segments.len(),
        forall|i: int|
            0 <= i < topic.segments.len() ==> ((#[trigger] topic.segments[i]).contains_offset(
                offset,
            ) <==> i == place),
        claiming_place(topic.segments, offset) == Some(place),
        topic.read(offset) == lookup(topic.segments[place].log, offset),
{
    let place = offset as int / span();
    assert(0 <= place < topic.segments.len() && place * span() <= offset < (place + 1) * span())
        by (nonlinear_arith)
        requires
            place == offset as int / span(),
            span() == 6,
            0 <= offset < topic.segments.len() * span(),
    ;
    assert forall|i: int| 0 <= i < topic.segments.len() implies ((
    #[trigger] topic.segments[i]).contains_offset(offset) <==> i == place) by {
        assert(topic.segments[i].base_offset == i * span());
        assert(i * span() <= offset < (i + 1) * span() <==> i == place) by (nonlinear_arith)
            requires
                place * span() <= offset < (place + 1) * span(),
                span() == 6,
        ;
    }
    lemma_read_goes_to_sole_claimant(topic, offset, place);
    place
}

/// The log file that a new topic starts with is the log file of a segment
/// that starts at offset 0: in whatever directory, it is a segment file
/// named by offset 0, and a load of the topic finds it again.
pub proof fn lemma_first_log_file_is_listed(directory: Seq<char>)
    ensures
        Segment::DEFAULT_LOG_PATH@ == log_name(0),
        names_log(path_in(directory, Segment::DEFAULT_LOG_PATH@)),
        base_offset_of(path_in(directory, Segment::DEFAULT_LOG_PATH@)) == Some(0u64),
{
    reveal_strlit("00000.dat");
    assert(Segment::DEFAULT_LOG_PATH@ =~= log_name(0)) by {
        assert(Seq::new(4, |i: int| '0') + seq!['0'] =~= seq!['0', '0', '0', '0', '0']);
    }
    lemma_log_name_is_read_back(directory, 0);
}

/// What a topic is restored to is settled by the metadata and the files it
/// is restored from.
pub proof fn lemma_restored_is_unique(
    metadata: TopicMetadataView,
    files: Seq<SegmentFileView>,
    one: TopicView,
    other: TopicView,
)
    requires
        one.restores(metadata, files),
        other.restores(metadata, files),
    ensures
        one == other,
{
    lemma_arranged_is_unique(one.segments, other.segments, metadata.base_directory, files);
}

/// A new topic comes back as it was: restored from the metadata that it
/// writes and from its one log file, it is the new topic with what that
/// file holds.
pub proof fn lemma_new_topic_is_restored(name: Seq<char>, log: Seq<u8>, restored: TopicView)
    requires
        restored.restores(
            fresh(name).metadata(),
            seq![SegmentFileView { name: Segment::DEFAULT_LOG_PATH@, contents: log }],
        ),
    ensures
        restored == (TopicView {
            segments: seq![SegmentView { log: log, ..fresh(name).segments[0] }],
            ..fresh(name)
        }),
{
    let directory = directory_of(name);
    let files = seq![SegmentFileView { name: Segment::DEFAULT_LOG_PATH@, contents: log }];
    let kept = SegmentView { log: log, ..fresh(name).segments[0] };
    let expected = TopicView { segments: seq![kept], ..fresh(name) };
    lemma_first_log_file_is_listed(directory);
    assert(files.drop_last() =~= Seq::<SegmentFileView>::empty());
    assert(listed(directory, Seq::<SegmentFileView>::empty()) =~= Seq::<Holding>::empty());
    assert(listed(directory, files) =~= seq![holding_of(kept)]);
    assert(holdings(expected.segments) =~= seq![holding_of(kept)]);
    assert(expected.restores(fresh(name).metadata(), files));
    lemma_restored_is_unique(fresh(name).metadata(), files, restored, expected);
}

/// A topic that was restored from the metadata that another one wrote has
/// that topic's name and next offset, and holds as many segments as the
/// listing has segment files, in the order of their base offsets.
pub proof fn lemma_metadata_survives(
    written: TopicView,
    files: Seq<SegmentFileView>,
    restored: TopicView,
)
    requires
        restored.restores(written.metadata(), files),
    ensures
        restored.name == written.name,
        restored.base_directory == written.base_directory,
        restored.next_offset == written.next_offset,
        restored.segments.len() == listed(written.base_directory, files).len(),
        ascending(restored.segments),
{
}

} // verus!
