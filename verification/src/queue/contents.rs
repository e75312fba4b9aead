//! What a topic holds, told as the run of payloads that were stored in it.
//!
//! A topic that is used as it is meant to be used, with a rollover whenever
//! the segment that takes appends is full, is a growing run of payloads: an
//! append adds one at the end, a rollover leaves the run as it is, and a
//! read of an offset gives the payload at that place of the run.

use vstd::prelude::*;

use crate::message::{encoding, MessageView};
use crate::queue::invariants::{
    lemma_first_log_file_is_listed, lemma_read_goes_to_sole_claimant, span,
};
use crate::queue::listing::{
    arranges, ascending, holding_of, holdings, lemma_arranged_is_unique, listed,
    only_last_active, Holding, SegmentFileView,
};
use crate::queue::topic::{
    active_place, claiming_place, directory_of, fresh, is_active_place, is_claiming_place,
    TopicView,
};
use crate::storage::naming::{lemma_log_name_is_read_back, log_name, path_in};
use crate::storage::segment::{
    frame, lemma_framable_is_storable, lemma_lookup_extends, lemma_lookup_steps_over_frame,
    lemma_sound_below_grows, lookup, sound_below, storable, Lookup,
};

verus! {

/// The message that stores `payload` under `offset`.
pub open spec fn stored(offset: int, payload: Seq<char>) -> MessageView {
    MessageView { offset: offset as u64, value: payload }
}

/// Whether each of `payloads` is short enough to be stored.
pub open spec fn all_storable(payloads: Seq<Seq<char>>) -> bool {
    forall|k: int| 0 <= k < payloads.len() ==> storable(#[trigger] payloads[k])
}

/// The log that holds `payloads`, in order, under the offsets from `first`
/// on.
pub open spec fn image(first: int, payloads: Seq<Seq<char>>) -> Seq<u8>
    decreases payloads.len(),
{
    if payloads.len() == 0 {
        Seq::empty()
    } else {
        image(first, payloads.drop_last()) + frame(
            encoding(stored(first + payloads.len() - 1, payloads.last())),
        )
    }
}

/// Where the offsets of segment `i` end, in a topic of `count` segments
/// that holds `held` payloads: where the next segment starts, or, for the
/// last segment, at the end of what is held.
pub open spec fn end_of(i: int, count: int, held: int) -> int {
    if i == count - 1 {
        held
    } else {
        (i + 1) * span()
    }
}

impl TopicView {
    /// Whether the topic holds `payloads` and nothing else, payload `k`
    /// under offset `k`: the segments start one span apart from offset 0,
    /// each lies in the log file of the topic's directory that is named by
    /// its base offset, only the last one takes appends, and each holds, in
    /// order, the payloads from its base offset up to the base offset of
    /// the next segment, the last one those up to the end.
    pub open spec fn holds(self, payloads: Seq<Seq<char>>) -> bool {
        let count = self.segments.len() as int;
        &&& count > 0
        &&& self.next_offset == payloads.len()
        &&& (count - 1) * span() <= payloads.len()
        &&& all_storable(payloads)
        &&& only_last_active(self.segments)
        &&& forall|i: int|
            0 <= i < count ==> (#[trigger] self.segments[i]).base_offset == i * span()
        &&& forall|i: int|
            0 <= i < count ==> (#[trigger] self.segments[i]).path == path_in(
                self.base_directory,
                log_name(self.segments[i].base_offset),
            )
        &&& forall|i: int|
            0 <= i < count ==> (#[trigger] self.segments[i]).log == image(
                i * span(),
                payloads.subrange(i * span(), end_of(i, count, payloads.len() as int)),
            )
    }

    /// How many offsets the segments claim between them, where they start
    /// one span apart from offset 0.
    pub open spec fn reach(self) -> int {
        self.segments.len() * span()
    }

    /// The log files of the topic as a listing of its directory gives them,
    /// in the order of the segments.
    pub open spec fn log_files(self) -> Seq<SegmentFileView> {
        Seq::new(
            self.segments.len(),
            |i: int|
                SegmentFileView {
                    name: log_name(self.segments[i].base_offset),
                    contents: self.segments[i].log,
                },
        )
    }
}

/// Each part of a run of payloads that are short enough to be stored is
/// such a run.
pub proof fn lemma_part_is_storable(payloads: Seq<Seq<char>>, from: int, to: int)
    requires
        all_storable(payloads),
        0 <= from <= to <= payloads.len(),
    ensures
        all_storable(payloads.subrange(from, to)),
{
    let part = payloads.subrange(from, to);
    assert forall|k: int| 0 <= k < part.len() implies storable(#[trigger] part[k]) by {
        assert(part[k] == payloads[from + k]);
    }
}

/// A scan of the log that holds a run of payloads finds each of them under
/// its offset, and nothing under another offset.
pub proof fn lemma_lookup_in_image(first: int, payloads: Seq<Seq<char>>, offset: u64)
    requires
        0 <= first,
        first + payloads.len() <= u64::MAX + 1,
        all_storable(payloads),
    ensures
        lookup(image(first, payloads), offset) == if first <= offset < first + payloads.len() {
            Lookup::Found(stored(offset as int, payloads[offset - first]))
        } else {
            Lookup::Absent
        },
    decreases payloads.len(),
{
    if payloads.len() > 0 {
        let front = payloads.drop_last();
        let last = stored(first + payloads.len() - 1, payloads.last());
        let tail = frame(encoding(last));
        lemma_part_is_storable(payloads, 0, payloads.len() - 1);
        assert(storable(payloads[payloads.len() - 1]));
        lemma_framable_is_storable(last);
        lemma_lookup_in_image(first, front, offset);
        lemma_lookup_extends(image(first, front), tail, offset);
        lemma_lookup_steps_over_frame(last, Seq::empty(), offset);
        assert(tail + Seq::<u8>::empty() =~= tail);
        if first <= offset < first + front.len() {
            assert(front[offset - first] == payloads[offset - first]);
        }
    }
}

/// The log that holds a run of payloads is sound below each bound that the
/// offsets of the run stay under.
pub proof fn lemma_image_is_sound(first: int, payloads: Seq<Seq<char>>, bound: u64)
    requires
        0 <= first,
        first + payloads.len() <= bound,
        all_storable(payloads),
    ensures
        sound_below(image(first, payloads), bound),
    decreases payloads.len(),
{
    if payloads.len() > 0 {
        let front = payloads.drop_last();
        let last = stored(first + payloads.len() - 1, payloads.last());
        lemma_part_is_storable(payloads, 0, payloads.len() - 1);
        assert(storable(payloads[payloads.len() - 1]));
        lemma_framable_is_storable(last);
        lemma_image_is_sound(first, front, bound);
        lemma_sound_below_grows(image(first, front), bound, last);
    }
}

/// A topic that holds a run of payloads is sound, and its segments part the
/// offsets without a gap where the run is within their reach.
pub proof fn lemma_holding_topic_is_sound(topic: TopicView, payloads: Seq<Seq<char>>)
    requires
        topic.holds(payloads),
    ensures
        topic.sound(),
        payloads.len() <= topic.reach() ==> topic.contiguous(),
{
    let count = topic.segments.len() as int;
    let held = payloads.len() as int;
    assert forall|i: int| 0 <= i < count implies sound_below(
        (#[trigger] topic.segments[i]).log,
        topic.next_offset,
    ) by {
        let first = i * span();
        let end = end_of(i, count, held);
        assert(topic.segments[i].log == image(first, payloads.subrange(first, end)));
        lemma_part_is_storable(payloads, first, end);
        lemma_image_is_sound(first, payloads.subrange(first, end), topic.next_offset);
    }
}

/// A new topic holds nothing.
pub proof fn lemma_fresh_holds_nothing(name: Seq<char>)
    ensures
        fresh(name).holds(Seq::empty()),
{
    let nothing = Seq::<Seq<char>>::empty();
    lemma_first_log_file_is_listed(directory_of(name));
    assert(nothing.subrange(0, 0) =~= nothing);
    assert(image(0, nothing) =~= Seq::<u8>::empty());
}

/// An append to a topic that holds a run of payloads is taken where the
/// payload is short enough, and the topic then holds the run with the
/// payload at its end.
pub proof fn lemma_append_adds_payload(
    topic: TopicView,
    payloads: Seq<Seq<char>>,
    payload: Seq<char>,
)
    requires
        topic.holds(payloads),
        storable(payload),
        topic.next_offset < u64::MAX,
    ensures
        topic.accepts(payload),
        topic.appended(payload).holds(payloads.push(payload)),
{
    let count = topic.segments.len() as int;
    let held = payloads.len() as int;
    let last = count - 1;
    let grown = payloads.push(payload);
    let after = topic.appended(payload);
    assert(is_active_place(topic.segments, last));
    assert(active_place(topic.segments) == Some(last));
    lemma_framable_is_storable(topic.message_for(payload));
    assert(all_storable(grown));
    assert forall|i: int| 0 <= i < count implies (#[trigger] after.segments[i]).log == image(
        i * span(),
        grown.subrange(i * span(), end_of(i, count, held + 1)),
    ) by {
        if i == last {
            let kept = payloads.subrange(last * span(), held);
            let more = grown.subrange(last * span(), held + 1);
            assert(more.drop_last() =~= kept);
            assert(more.last() == payload);
            assert(stored(last * span() + more.len() - 1, payload) == topic.message_for(payload));
        } else {
            assert(after.segments[i] == topic.segments[i]);
            assert(grown.subrange(i * span(), (i + 1) * span()) =~= payloads.subrange(
                i * span(),
                (i + 1) * span(),
            ));
        }
    }
    assert forall|i: int| 0 <= i < count implies (#[trigger] after.segments[i]).path
        == topic.segments[i].path && after.segments[i].base_offset
        == topic.segments[i].base_offset && after.segments[i].is_active
        == topic.segments[i].is_active by {}
}

/// A rollover of a topic that holds a run of payloads and whose segments
/// are used up opens a segment, and the topic holds the same run.
pub proof fn lemma_roll_over_keeps_payloads(topic: TopicView, payloads: Seq<Seq<char>>)
    requires
        topic.holds(payloads),
        payloads.len() == topic.reach(),
    ensures
        topic.is_full(),
        topic.rolled().holds(payloads),
{
    let count = topic.segments.len() as int;
    let held = payloads.len() as int;
    let last = count - 1;
    let after = topic.rolled();
    assert(span() == 6);
    assert(is_active_place(topic.segments, last));
    assert(active_place(topic.segments) == Some(last));
    assert(topic.segments[last].base_offset == last * span());
    assert(!topic.segments[last].contains_offset(topic.next_offset));
    assert forall|i: int| 0 <= i < count + 1 implies {
        &&& (#[trigger] after.segments[i]).base_offset == i * span()
        &&& after.segments[i].path == path_in(
            after.base_directory,
            log_name(after.segments[i].base_offset),
        )
        &&& after.segments[i].is_active == (i == count)
        &&& after.segments[i].log == image(
            i * span(),
            payloads.subrange(i * span(), end_of(i, count + 1, held)),
        )
    } by {
        if i == count {
            assert(payloads.subrange(held, held) =~= Seq::<Seq<char>>::empty());
            assert(image(held, Seq::<Seq<char>>::empty()) =~= Seq::<u8>::empty());
        } else {
            assert(after.segments[i].log == topic.segments[i].log);
            assert(after.segments[i].path == topic.segments[i].path);
            assert(after.segments[i].base_offset == topic.segments[i].base_offset);
        }
    }
}

/// A read of a topic that holds a run of payloads gives the payload under
/// the offset that was asked for, where the offset is below the next offset
/// and within the reach of the segments, and nothing elsewhere.
pub proof fn lemma_read_gives_payload(topic: TopicView, payloads: Seq<Seq<char>>, offset: u64)
    requires
        topic.holds(payloads),
    ensures
        topic.read(offset) == if offset < payloads.len() && offset < topic.reach() {
            Lookup::Found(stored(offset as int, payloads[offset as int]))
        } else {
            Lookup::Absent
        },
{
    let count = topic.segments.len() as int;
    let held = payloads.len() as int;
    assert(span() == 6);
    if offset < topic.reach() {
        let place = offset as int / span();
        let first = place * span();
        let end = end_of(place, count, held);
        let part = payloads.subrange(first, end);
        assert(0 <= place < count);
        assert forall|i: int| 0 <= i < count implies ((
        #[trigger] topic.segments[i]).contains_offset(offset) <==> i == place) by {
            assert(topic.segments[i].base_offset == i * span());
        }
        lemma_read_goes_to_sole_claimant(topic, offset, place);
        assert(topic.segments[place].log == image(first, part));
        lemma_part_is_storable(payloads, first, end);
        lemma_lookup_in_image(first, part, offset);
        if offset < held {
            assert(part[offset - first] == payloads[offset as int]);
        }
    } else {
        assert forall|i: int| 0 <= i < count implies !(
        #[trigger] topic.segments[i]).contains_offset(offset) by {
            assert(topic.segments[i].base_offset == i * span());
        }
        assert(claiming_place(topic.segments, offset) is None) by {
            if claiming_place(topic.segments, offset) is Some {
                let i = claiming_place(topic.segments, offset)->0;
                assert(is_claiming_place(topic.segments, offset, i));
            }
        }
    }
}

/// The log files of a topic that holds a run of payloads are listed as the
/// holdings of its segments.
pub proof fn lemma_log_files_are_listed(topic: TopicView, payloads: Seq<Seq<char>>, count: int)
    requires
        topic.holds(payloads),
        0 <= count <= topic.segments.len(),
    ensures
        listed(topic.base_directory, topic.log_files().take(count)) == holdings(
            topic.segments,
        ).take(count),
    decreases count,
{
    let files = topic.log_files().take(count);
    let held = holdings(topic.segments);
    if count > 0 {
        let segment = topic.segments[count - 1];
        lemma_log_files_are_listed(topic, payloads, count - 1);
        lemma_log_name_is_read_back(topic.base_directory, segment.base_offset);
        assert(files.drop_last() =~= topic.log_files().take(count - 1));
        assert(files.last().name == log_name(segment.base_offset));
        assert(held.take(count) =~= held.take(count - 1).push(holding_of(segment)));
    } else {
        assert(held.take(0) =~= Seq::<Holding>::empty());
    }
}

/// A topic that holds a run of payloads comes back as it was: restored from
/// the metadata that it writes and from its log files, it is the same
/// topic.
pub proof fn lemma_topic_comes_back(
    topic: TopicView,
    payloads: Seq<Seq<char>>,
    restored: TopicView,
)
    requires
        topic.holds(payloads),
        restored.restores(topic.metadata(), topic.log_files()),
    ensures
        restored == topic,
{
    let count = topic.segments.len() as int;
    lemma_log_files_are_listed(topic, payloads, count);
    assert(topic.log_files().take(count) =~= topic.log_files());
    assert(holdings(topic.segments).take(count) =~= holdings(topic.segments));
    assert(ascending(topic.segments)) by {
        assert forall|i: int, j: int| 0 <= i < j < count implies (
        #[trigger] topic.segments[i]).base_offset <= (#[trigger] topic.segments[j]).base_offset by {
            assert(topic.segments[i].base_offset == i * span());
            assert(topic.segments[j].base_offset == j * span());
        }
    }
    assert(arranges(topic.segments, topic.base_directory, topic.log_files()));
    lemma_arranged_is_unique(
        restored.segments,
        topic.segments,
        topic.base_directory,
        topic.log_files(),
    );
}

} // verus!
