//! A topic: an ordered run of segments under one name, and the offset that
//! the next message will get.

use vstd::prelude::*;
use vstd::string::StringExecFns;

use crate::error::StoreError;
use crate::message::{encoding, Message, MessageView};
use crate::queue::listing::{
    all_named, arranges, ascending, file_views, held_under, holding_of, holdings, listed,
    place_segment, seal_all_but_last, SegmentFile, SegmentFileView,
};
use crate::storage::naming::{
    base_offset_of, has_log_extension, join_path, log_file_name, log_name, names_log, path_in,
};
use crate::storage::segment::{
    framable, frame, lemma_short_message_is_framable, lookup, segment_views, storable_length,
    Lookup, Segment, SegmentView,
};

verus! {

/// A named log.
#[derive(Debug)]
pub struct Topic {
    pub name: String,
    pub base_directory: String,
    pub segments: Vec<Segment>,
    pub next_offset: u64,
}

/// The mathematical value of a [`Topic`].
pub struct TopicView {
    pub name: Seq<char>,
    pub base_directory: Seq<char>,
    pub segments: Seq<SegmentView>,
    pub next_offset: u64,
}

impl View for Topic {
    type V = TopicView;

    open spec fn view(&self) -> TopicView {
        TopicView {
            name: self.name@,
            base_directory: self.base_directory@,
            segments: segment_views(self.segments@),
            next_offset: self.next_offset,
        }
    }
}

/// What is kept of a topic beside its segments.
#[derive(Debug)]
pub struct TopicMetadata {
    pub name: String,
    pub base_directory: String,
    pub next_offset: u64,
}

/// The mathematical value of a [`TopicMetadata`].
pub struct TopicMetadataView {
    pub name: Seq<char>,
    pub base_directory: Seq<char>,
    pub next_offset: u64,
}

impl View for TopicMetadata {
    type V = TopicMetadataView;

    open spec fn view(&self) -> TopicMetadataView {
        TopicMetadataView {
            name: self.name@,
            base_directory: self.base_directory@,
            next_offset: self.next_offset,
        }
    }
}

/// The directory of the topic `name`, below the root of the store.
pub open spec fn directory_of(name: Seq<char>) -> Seq<char> {
    "data/"@ + name
}

/// The topic `name` as it is created: one empty segment that starts at
/// offset 0, lies in the first log file of the topic's directory and takes
/// appends.
pub open spec fn fresh(name: Seq<char>) -> TopicView {
    TopicView {
        name: name,
        base_directory: directory_of(name),
        segments: seq![
            SegmentView {
                base_offset: 0,
                path: path_in(directory_of(name), Segment::DEFAULT_LOG_PATH@),
                log: Seq::empty(),
                is_active: true,
            },
        ],
        next_offset: 0,
    }
}

/// The path of the file that keeps the metadata of the topic `name`.
pub open spec fn metadata_path_of(name: Seq<char>) -> Seq<char> {
    path_in(directory_of(name), "metadata.json"@)
}

/// Whether `i` is the place of the first segment that takes appends.
pub open spec fn is_active_place(segments: Seq<SegmentView>, i: int) -> bool {
    &&& 0 <= i < segments.len()
    &&& segments[i].is_active
    &&& forall|j: int| 0 <= j < i ==> !(#[trigger] segments[j]).is_active
}

/// The place of the first segment that takes appends.
pub open spec fn active_place(segments: Seq<SegmentView>) -> Option<int> {
    if exists|i: int| is_active_place(segments, i) {
        Some(choose|i: int| is_active_place(segments, i))
    } else {
        None
    }
}

/// Whether `i` is the place of the first segment that claims `offset`.
pub open spec fn is_claiming_place(segments: Seq<SegmentView>, offset: u64, i: int) -> bool {
    &&& 0 <= i < segments.len()
    &&& segments[i].contains_offset(offset)
    &&& forall|j: int| 0 <= j < i ==> !(#[trigger] segments[j]).contains_offset(offset)
}

/// The place of the first segment that claims `offset`.
pub open spec fn claiming_place(segments: Seq<SegmentView>, offset: u64) -> Option<int> {
    if exists|i: int| is_claiming_place(segments, offset, i) {
        Some(choose|i: int| is_claiming_place(segments, offset, i))
    } else {
        None
    }
}

/// Where a segment takes appends, there is a first one that does.
pub proof fn lemma_some_segment_is_active(segments: Seq<SegmentView>, place: int)
    requires
        0 <= place < segments.len(),
        segments[place].is_active,
    ensures
        active_place(segments) is Some,
        active_place(segments)->0 <= place,
    decreases place,
{
    if exists|j: int| 0 <= j < place && (#[trigger] segments[j]).is_active {
        let j = choose|j: int| 0 <= j < place && (#[trigger] segments[j]).is_active;
        lemma_some_segment_is_active(segments, j);
    } else {
        assert(is_active_place(segments, place));
    }
}

impl TopicView {
    /// The message that an append of `payload` stores.
    pub open spec fn message_for(self, payload: Seq<char>) -> MessageView {
        MessageView { offset: self.next_offset, value: payload }
    }

    /// Whether the topic can store `payload`: a segment takes appends and
    /// the message fits in a frame.
    pub open spec fn accepts(self, payload: Seq<char>) -> bool {
        active_place(self.segments) is Some && framable(self.message_for(payload))
    }

    /// The topic after `payload` was stored: the first segment that takes
    /// appends has one more frame, and the next offset is one higher.
    pub open spec fn appended(self, payload: Seq<char>) -> TopicView
        recommends
            active_place(self.segments) is Some,
            self.next_offset < u64::MAX,
    {
        let i = active_place(self.segments)->0;
        TopicView {
            segments: self.segments.update(
                i,
                self.segments[i].with_frame(encoding(self.message_for(payload))),
            ),
            next_offset: (self.next_offset + 1) as u64,
            ..self
        }
    }

    /// Whether the segment that takes appends does not claim the next
    /// offset.
    pub open spec fn is_full(self) -> bool {
        match active_place(self.segments) {
            Some(i) => !self.segments[i].contains_offset(self.next_offset),
            None => false,
        }
    }

    /// The topic after its segment that takes appends was sealed and a new
    /// one opened: the sealed one takes no more appends, and an empty one
    /// that starts at the next offset and takes appends comes last, in the
    /// log file of the topic's directory that is named by that offset.
    pub open spec fn rolled(self) -> TopicView
        recommends
            active_place(self.segments) is Some,
    {
        let i = active_place(self.segments)->0;
        TopicView {
            segments: self.segments.update(
                i,
                SegmentView { is_active: false, ..self.segments[i] },
            ).push(
                SegmentView {
                    base_offset: self.next_offset,
                    path: path_in(self.base_directory, log_name(self.next_offset)),
                    log: Seq::empty(),
                    is_active: true,
                },
            ),
            ..self
        }
    }

    /// What is kept of the topic beside its segments.
    pub open spec fn metadata(self) -> TopicMetadataView {
        TopicMetadataView {
            name: self.name,
            base_directory: self.base_directory,
            next_offset: self.next_offset,
        }
    }

    /// Whether the topic is what `metadata` and the files of its directory
    /// give: the metadata as it stands, and the segment files in the order
    /// of their base offsets.
    pub open spec fn restores(
        self,
        metadata: TopicMetadataView,
        files: Seq<SegmentFileView>,
    ) -> bool {
        self.metadata() == metadata && arranges(self.segments, metadata.base_directory, files)
    }

    /// What a read of `offset` ends in: the scan of the first segment that
    /// claims the offset, and nothing where none claims it.
    pub open spec fn read(self, offset: u64) -> Lookup {
        match claiming_place(self.segments, offset) {
            Some(i) => lookup(self.segments[i].log, offset),
            None => Lookup::Absent,
        }
    }
}

impl Topic {
    /// A new topic in the directory `data/` and the name: one empty segment
    /// that starts at offset 0, lies in the file `00000.dat` of that
    /// directory and takes appends.
    pub fn new(name: String) -> (topic: Topic)
        ensures
            topic@ == fresh(name@),
            active_place(topic@.segments) == Some(0int),
    {
        let base_directory = String::from_str("data/").concat(name.as_str());
        let path = join_path(base_directory.as_str(), Segment::DEFAULT_LOG_PATH);
        let first = Segment::new(0, path, Vec::new());
        let mut segments: Vec<Segment> = Vec::new();
        segments.push(first);
        let topic = Topic { name, base_directory, segments, next_offset: 0 };
        assert(topic@.segments =~= fresh(name@).segments);
        assert(is_active_place(topic@.segments, 0));
        topic
    }

    /// Stores `payload` under the next offset in the first segment that
    /// takes appends, and returns the offset that the next message will get.
    /// This succeeds exactly where the topic accepts the payload: always
    /// where a segment takes appends and the payload has no more than
    /// `storable_length()` characters. Where it fails the topic is
    /// unchanged: with `NotFound` where no segment takes appends, with
    /// `InvalidData` where one does and the message is too long for a
    /// frame.
    pub fn append(&mut self, payload: String) -> (r: Result<u64, StoreError>)
        requires
            active_place(old(self)@.segments) is Some ==> old(self).next_offset < u64::MAX,
        ensures
            old(self)@.accepts(payload@) <==> r is Ok,
            active_place(old(self)@.segments) is Some && payload@.len() <= storable_length()
                ==> r is Ok,
            match r {
                Ok(next) => {
                    &&& final(self)@ == old(self)@.appended(payload@)
                    &&& next == old(self).next_offset + 1
                    &&& active_place(final(self)@.segments) == active_place(old(self)@.segments)
                },
                Err(e) => {
                    &&& final(self)@ == old(self)@
                    &&& match e {
                        StoreError::NotFound => active_place(old(self)@.segments) is None,
                        StoreError::InvalidData => active_place(old(self)@.segments) is Some
                            && !framable(old(self)@.message_for(payload@)),
                        StoreError::Io => false,
                    }
                },
            },
    {
        let message = Message::new(self.next_offset, payload);
        let place = match self.find_active_segment() {
            Some(place) => place,
            None => {
                return Err(StoreError::NotFound);
            },
        };
        let next_offset = match self.segments[place].append(&message) {
            Ok(next_offset) => next_offset,
            Err(e) => {
                assert(self@.segments =~= old(self)@.segments);
                return Err(e);
            },
        };
        self.next_offset = next_offset;
        assert(self@.segments =~= old(self)@.appended(payload@).segments);
        assert(is_active_place(self@.segments, place as int)) by {
            assert(is_active_place(old(self)@.segments, place as int));
            assert forall|j: int| 0 <= j < place implies !(
            #[trigger] self@.segments[j]).is_active by {
                assert(self@.segments[j] == old(self)@.segments[j]);
            }
        }
        Ok(next_offset)
    }

    /// The place of the segment that an append of `payload` would store it
    /// in, and the bytes that the append would add to the log of that
    /// segment. This succeeds exactly where the topic accepts the payload,
    /// and fails as the append would. A caller that keeps the logs in files
    /// writes these bytes to the file of that segment and then appends.
    pub fn next_frame(&self, payload: &str) -> (r: Result<(usize, Vec<u8>), StoreError>)
        ensures
            self@.accepts(payload@) <==> r is Ok,
            active_place(self@.segments) is Some && payload@.len() <= storable_length()
                ==> r is Ok,
            match r {
                Ok(found) => {
                    &&& active_place(self@.segments) == Some(found.0 as int)
                    &&& found.1@ == frame(encoding(self@.message_for(payload@)))
                    &&& self@.appended(payload@).segments[found.0 as int].log
                        == self@.segments[found.0 as int].log + found.1@
                },
                Err(e) => match e {
                    StoreError::NotFound => active_place(self@.segments) is None,
                    StoreError::InvalidData => active_place(self@.segments) is Some && !framable(
                        self@.message_for(payload@),
                    ),
                    StoreError::Io => false,
                },
            },
    {
        let place = match self.find_active_segment() {
            Some(place) => place,
            None => {
                return Err(StoreError::NotFound);
            },
        };
        let message = Message::new(self.next_offset, String::from_str(payload));
        proof {
            if payload@.len() <= storable_length() {
                lemma_short_message_is_framable(message@);
            }
        }
        let encoded = match message.encode() {
            Ok(encoded) => encoded,
            Err(e) => {
                return Err(e);
            },
        };
        match Segment::frame_of(encoded) {
            Ok(bytes) => Ok((place, bytes)),
            Err(e) => Err(e),
        }
    }

    /// Seals the segment that takes appends and opens a new one at the next
    /// offset, where the former does not claim that offset; where it does,
    /// nothing changes. Returns whether a segment was opened. `NotFound`,
    /// and no change, exactly where no segment takes appends.
    ///
    /// An append never does this by itself: the caller rolls over when it
    /// wants the messages that follow to be found again.
    pub fn roll_over(&mut self) -> (r: Result<bool, StoreError>)
        ensures
            match r {
                Ok(opened) => {
                    &&& active_place(old(self)@.segments) is Some
                    &&& opened == old(self)@.is_full()
                    &&& final(self)@ == if opened {
                        old(self)@.rolled()
                    } else {
                        old(self)@
                    }
                    &&& active_place(final(self)@.segments) is Some
                },
                Err(e) => {
                    &&& e == StoreError::NotFound
                    &&& active_place(old(self)@.segments) is None
                    &&& final(self)@ == old(self)@
                },
            },
    {
        let place = match self.find_active_segment() {
            Some(place) => place,
            None => {
                return Err(StoreError::NotFound);
            },
        };
        if self.segments[place].contains_offset(self.next_offset) {
            return Ok(false);
        }
        let name = log_file_name(self.next_offset);
        let path = join_path(self.base_directory.as_str(), name.as_str());
        self.segments[place].is_active = false;
        self.segments.push(Segment::new(self.next_offset, path, Vec::new()));
        assert(self@.segments =~= old(self)@.rolled().segments);
        proof {
            let last = self@.segments.len() - 1;
            assert(self@.segments[last].is_active);
            lemma_some_segment_is_active(self@.segments, last);
        }
        Ok(true)
    }

    /// The first message stored under `offset` in the first segment that
    /// claims the offset. `NotFound` where no segment claims the offset or
    /// that segment ends before the offset is met; `InvalidData` where a
    /// frame that is cut short or does not decode comes first.
    pub fn read(&self, offset: u64) -> (r: Result<Message, StoreError>)
        ensures
            match r {
                Ok(message) => self@.read(offset) == Lookup::Found(message@),
                Err(e) => match self@.read(offset) {
                    Lookup::Found(_) => false,
                    Lookup::Absent => e == StoreError::NotFound,
                    Lookup::Corrupt => e == StoreError::InvalidData,
                },
            },
    {
        match self.find_segment(offset) {
            Some(place) => self.segments[place].read_from(offset),
            None => Err(StoreError::NotFound),
        }
    }

    /// What is to be kept of the topic beside its segments: its name, its
    /// directory and the next offset.
    pub fn write(&self) -> (metadata: TopicMetadata)
        ensures
            metadata@ == self@.metadata(),
    {
        TopicMetadata {
            name: self.name.clone(),
            base_directory: self.base_directory.clone(),
            next_offset: self.next_offset,
        }
    }

    /// The topic that `metadata` and the files of its directory give. Files
    /// without the extension of a segment file are passed over.
    /// `InvalidData` exactly where a segment file is not named by a base
    /// offset. Where the topic has a segment, its last one takes appends.
    pub fn load(metadata: TopicMetadata, files: Vec<SegmentFile>) -> (r: Result<Topic, StoreError>)
        ensures
            match r {
                Ok(topic) => {
                    &&& all_named(metadata@.base_directory, file_views(files@))
                    &&& topic@.restores(metadata@, file_views(files@))
                    &&& topic@.segments.len() > 0 ==> active_place(topic@.segments) == Some(
                        topic@.segments.len() - 1,
                    )
                },
                Err(e) => e == StoreError::InvalidData && !all_named(
                    metadata@.base_directory,
                    file_views(files@),
                ),
            },
    {
        let mut topic = Topic {
            name: metadata.name,
            base_directory: metadata.base_directory,
            segments: Vec::new(),
            next_offset: metadata.next_offset,
        };
        match topic.load_segments(files) {
            Ok(_) => Ok(topic),
            Err(e) => Err(e),
        }
    }

    /// Replaces the segments by the segment files among `files`, in the
    /// order of their base offsets; the last of them, and no other, takes
    /// appends. `InvalidData`, and no change, exactly where a segment file
    /// is not named by a base offset.
    pub fn load_segments(&mut self, files: Vec<SegmentFile>) -> (r: Result<(), StoreError>)
        ensures
            match r {
                Ok(_) => {
                    &&& all_named(old(self)@.base_directory, file_views(files@))
                    &&& final(self)@.restores(old(self)@.metadata(), file_views(files@))
                    &&& final(self)@.segments.len() > 0 ==> active_place(final(self)@.segments)
                        == Some(final(self)@.segments.len() - 1)
                },
                Err(e) => e == StoreError::InvalidData && !all_named(
                    old(self)@.base_directory,
                    file_views(files@),
                ) && final(self)@ == old(self)@,
            },
    {
        let ghost listing = file_views(files@);
        let ghost directory = self.base_directory@;
        let mut loaded: Vec<Segment> = Vec::new();
        for file in it: files
            invariant
                it.seq() == files@,
                listing == file_views(files@),
                directory == self.base_directory@,
                *self == *old(self),
                all_named(directory, listing.take(it.index() as int)),
                ascending(segment_views(loaded@)),
                loaded@.len() == listed(directory, listing.take(it.index() as int)).len(),
                forall|base: u64| #[trigger]
                    held_under(holdings(segment_views(loaded@)), base) == held_under(
                        listed(directory, listing.take(it.index() as int)),
                        base,
                    ),
        {
            let ghost k = it.index() as int;
            let ghost seen = listed(directory, listing.take(k));
            let ghost held = holdings(segment_views(loaded@));
            assert(listing.take(k + 1).drop_last() =~= listing.take(k));
            assert(listing.take(k + 1).last() == file@);
            let path = join_path(self.base_directory.as_str(), file.name.as_str());
            if has_log_extension(path.as_str()) {
                match Segment::load(path.as_str(), file.contents) {
                    Ok(segment) => {
                        let ghost holding = holding_of(segment@);
                        place_segment(&mut loaded, segment);
                        assert(listed(directory, listing.take(k + 1)) == seen.push(holding));
                        assert(seen.push(holding).drop_last() =~= seen);
                        assert forall|base: u64| #[trigger]
                            held_under(holdings(segment_views(loaded@)), base) == held_under(
                                seen.push(holding),
                                base,
                            ) by {
                            assert(held_under(held, base) == held_under(seen, base));
                        }
                    },
                    Err(e) => {
                        assert(!all_named(directory, listing)) by {
                            assert(names_log(path_in(directory, listing[k].name)));
                        }
                        return Err(e);
                    },
                }
            }
            assert(all_named(directory, listing.take(k + 1))) by {
                assert forall|i: int|
                    0 <= i < k + 1 && names_log(
                        path_in(directory, #[trigger] listing.take(k + 1)[i].name),
                    ) implies base_offset_of(
                    path_in(directory, listing.take(k + 1)[i].name),
                ) is Some by {
                    if i < k {
                        assert(listing.take(k + 1)[i] == listing.take(k)[i]);
                    }
                }
            }
        }
        assert(listing.take(files@.len() as int) =~= listing);
        let ghost sorted = segment_views(loaded@);
        seal_all_but_last(&mut loaded);
        assert(ascending(segment_views(loaded@))) by {
            assert forall|i: int, j: int| 0 <= i < j < loaded@.len() implies (
            #[trigger] segment_views(loaded@)[i]).base_offset <= (#[trigger] segment_views(
                loaded@,
            )[j]).base_offset by {
                assert(holdings(sorted)[i] == holdings(segment_views(loaded@))[i]);
                assert(holdings(sorted)[j] == holdings(segment_views(loaded@))[j]);
                assert(sorted[i].base_offset <= sorted[j].base_offset);
            }
        }
        self.segments = loaded;
        assert(self@.segments.len() > 0 ==> is_active_place(
            self@.segments,
            self@.segments.len() - 1,
        ));
        Ok(())
    }

    /// The path of the file that keeps the metadata of the topic `name`,
    /// below the root of the store.
    pub fn metadata_path(name: &str) -> (path: String)
        ensures
            path@ == metadata_path_of(name@),
    {
        let directory = String::from_str("data/").concat(name);
        join_path(directory.as_str(), "metadata.json")
    }

    /// The place of the first segment that takes appends.
    pub fn find_active_segment(&self) -> (place: Option<usize>)
        ensures
            match place {
                Some(i) => active_place(self@.segments) == Some(i as int),
                None => active_place(self@.segments) is None,
            },
    {
        let mut i: usize = 0;
        while i < self.segments.len()
            invariant
                i <= self.segments@.len(),
                forall|j: int| 0 <= j < i ==> !(#[trigger] self@.segments[j]).is_active,
            decreases self.segments@.len() - i,
        {
            if self.segments[i].is_active {
                assert(self@.segments[i as int].is_active);
                assert(is_active_place(self@.segments, i as int));
                return Some(i);
            }
            i = i + 1;
        }
        None
    }

    /// The place of the first segment that claims `offset`.
    pub fn find_segment(&self, offset: u64) -> (place: Option<usize>)
        ensures
            match place {
                Some(i) => claiming_place(self@.segments, offset) == Some(i as int),
                None => claiming_place(self@.segments, offset) is None,
            },
    {
        let mut i: usize = 0;
        while i < self.segments.len()
            invariant
                i <= self.segments@.len(),
                forall|j: int|
                    0 <= j < i ==> !(#[trigger] self@.segments[j]).contains_offset(offset),
            decreases self.segments@.len() - i,
        {
            if self.segments[i].contains_offset(offset) {
                assert(self@.segments[i as int].contains_offset(offset));
                assert(is_claiming_place(self@.segments, offset, i as int));
                return Some(i);
            }
            i = i + 1;
        }
        None
    }
}

} // verus!
