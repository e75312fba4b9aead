//! One segment of a topic: the image of a log file, a run of frames.
//!
//! A frame is the length of an encoded message, as four little-endian bytes,
//! followed by the encoded message.

use vstd::bytes::{
    lemma_auto_spec_u32_to_from_le_bytes, lemma_auto_spec_u64_to_from_le_bytes,
    spec_u32_from_le_bytes, spec_u32_to_le_bytes, u32_from_le_bytes, u32_to_le_bytes,
};
use vstd::prelude::*;
use vstd::slice::slice_subrange;
use vstd::string::StringExecFns;
use vstd::utf8::encode_utf8;

use crate::error::StoreError;
use crate::message::{decoding, encoding, lemma_decoding_inverts_encoding, Message, MessageView};
use crate::storage::naming::{base_offset_of, parse_base_offset};

verus! {

/// One log file: the lowest offset it is responsible for, its path below
/// the root of the store, the bytes it holds, and whether it takes appends.
#[derive(Debug)]
pub struct Segment {
    pub base_offset: u64,
    pub path: String,
    pub log: Vec<u8>,
    pub is_active: bool,
}

/// The mathematical value of a [`Segment`].
pub struct SegmentView {
    pub base_offset: u64,
    pub path: Seq<char>,
    pub log: Seq<u8>,
    pub is_active: bool,
}

impl View for Segment {
    type V = SegmentView;

    open spec fn view(&self) -> SegmentView {
        SegmentView {
            base_offset: self.base_offset,
            path: self.path@,
            log: self.log@,
            is_active: self.is_active,
        }
    }
}

/// The values of a run of segments.
pub open spec fn segment_views(segments: Seq<Segment>) -> Seq<SegmentView> {
    Seq::new(segments.len(), |i: int| segments[i]@)
}

/// What a scan of a log for an offset ends in.
pub enum Lookup {
    /// The first message stored under the offset.
    Found(MessageView),
    /// The log ends, between two frames, before the offset is met.
    Absent,
    /// A frame is cut short or does not decode before the offset is met.
    Corrupt,
}

/// The frame that carries `payload`.
pub open spec fn frame(payload: Seq<u8>) -> Seq<u8> {
    spec_u32_to_le_bytes(payload.len() as u32) + payload
}

/// The length that the first four bytes of `log` announce.
pub open spec fn announced(log: Seq<u8>) -> int {
    spec_u32_from_le_bytes(log.subrange(0, 4)) as int
}

/// Whether `log` begins with a whole frame whose payload decodes.
pub open spec fn starts_with_frame(log: Seq<u8>) -> bool {
    &&& log.len() >= 4
    &&& log.len() - 4 >= announced(log)
    &&& decoding(log.subrange(4, 4 + announced(log))) is Some
}

/// The message in the first frame of `log`.
pub open spec fn first_message(log: Seq<u8>) -> MessageView
    recommends
        starts_with_frame(log),
{
    decoding(log.subrange(4, 4 + announced(log)))->0
}

/// What follows the first frame of `log`.
pub open spec fn after_first(log: Seq<u8>) -> Seq<u8>
    recommends
        starts_with_frame(log),
{
    log.skip(4 + announced(log))
}

/// The outcome of reading `log` frame by frame from its start until a message
/// stored under `offset` is met.
pub open spec fn lookup(log: Seq<u8>, offset: u64) -> Lookup
    decreases log.len(),
{
    if log.len() == 0 {
        Lookup::Absent
    } else if !starts_with_frame(log) {
        Lookup::Corrupt
    } else if first_message(log).offset == offset {
        Lookup::Found(first_message(log))
    } else {
        lookup(after_first(log), offset)
    }
}

/// Whether a message is short enough for the length field of a frame.
pub open spec fn framable(m: MessageView) -> bool {
    encoding(m).len() <= u32::MAX
}

/// Whether a payload is short enough to be stored: its UTF-8 bytes and the
/// sixteen bytes in front of them fit the length field of a frame.
pub open spec fn storable(payload: Seq<char>) -> bool {
    16 + encode_utf8(payload).len() <= u32::MAX
}

/// The most characters of which every payload is short enough to be stored.
pub open spec fn storable_length() -> int {
    (u32::MAX - 16) / 4
}

/// A message fits in a frame exactly where its payload is short enough to
/// be stored, whatever its offset.
pub proof fn lemma_framable_is_storable(m: MessageView)
    ensures
        framable(m) <==> storable(m.value),
        encoding(m).len() == 16 + encode_utf8(m.value).len(),
{
    lemma_auto_spec_u64_to_from_le_bytes();
}

/// The UTF-8 bytes of a text are four at most for each of its characters.
pub proof fn lemma_utf8_length(text: Seq<char>)
    ensures
        encode_utf8(text).len() <= 4 * text.len(),
    decreases text.len(),
{
    if text.len() > 0 {
        lemma_utf8_length(text.drop_first());
    }
}

/// A message whose payload has no more than `storable_length()` characters
/// fits in a frame.
pub proof fn lemma_short_message_is_framable(m: MessageView)
    requires
        m.value.len() <= storable_length(),
    ensures
        framable(m),
{
    lemma_utf8_length(m.value);
    lemma_framable_is_storable(m);
}

/// Whether `log` is a run of whole frames, each holding a message with an
/// offset below `bound`.
pub open spec fn sound_below(log: Seq<u8>, bound: u64) -> bool
    decreases log.len(),
{
    log.len() == 0 || (starts_with_frame(log) && first_message(log).offset < bound && sound_below(
        after_first(log),
        bound,
    ))
}

/// A log that begins with the frame of a message begins with that message,
/// and goes on with what follows the frame.
pub proof fn lemma_frame_is_read_back(m: MessageView, rest: Seq<u8>)
    requires
        framable(m),
    ensures
        starts_with_frame(frame(encoding(m)) + rest),
        first_message(frame(encoding(m)) + rest) == m,
        after_first(frame(encoding(m)) + rest) == rest,
{
    lemma_auto_spec_u32_to_from_le_bytes();
    lemma_auto_spec_u64_to_from_le_bytes();
    lemma_decoding_inverts_encoding(m, Seq::empty());
    let payload = encoding(m);
    let log = frame(payload) + rest;
    assert(log.subrange(0, 4) =~= spec_u32_to_le_bytes(payload.len() as u32));
    assert(announced(log) == payload.len());
    assert(log.subrange(4, 4 + announced(log)) =~= payload);
    assert(log.skip(4 + announced(log)) =~= rest);
}

/// A scan for `offset` of a log that begins with the frame of `m` stops at
/// `m` where `m` is stored under `offset`, and else goes on behind the frame.
pub proof fn lemma_lookup_steps_over_frame(m: MessageView, rest: Seq<u8>, offset: u64)
    requires
        framable(m),
    ensures
        lookup(frame(encoding(m)) + rest, offset) == if m.offset == offset {
            Lookup::Found(m)
        } else {
            lookup(rest, offset)
        },
{
    lemma_frame_is_read_back(m, rest);
    lemma_auto_spec_u32_to_from_le_bytes();
    assert((frame(encoding(m)) + rest).len() > 0);
}

/// Bytes added behind a log leave a scan that found its message as it was,
/// and a scan that met the end of the log goes on in the added bytes.
pub proof fn lemma_lookup_extends(log: Seq<u8>, tail: Seq<u8>, offset: u64)
    ensures
        lookup(log, offset) is Found ==> lookup(log + tail, offset) == lookup(log, offset),
        lookup(log, offset) is Absent ==> lookup(log + tail, offset) == lookup(tail, offset),
    decreases log.len(),
{
    let all = log + tail;
    if log.len() == 0 {
        assert(all =~= tail);
    } else if starts_with_frame(log) {
        assert(all.subrange(0, 4) =~= log.subrange(0, 4));
        assert(all.subrange(4, 4 + announced(log)) =~= log.subrange(4, 4 + announced(log)));
        assert(after_first(all) =~= after_first(log) + tail);
        if first_message(log).offset != offset {
            lemma_lookup_extends(after_first(log), tail, offset);
        }
    }
}

/// A sound log stays sound under a higher bound.
pub proof fn lemma_sound_below_widens(log: Seq<u8>, bound: u64, higher: u64)
    requires
        sound_below(log, bound),
        bound <= higher,
    ensures
        sound_below(log, higher),
    decreases log.len(),
{
    if log.len() != 0 {
        lemma_sound_below_widens(after_first(log), bound, higher);
    }
}

/// A sound log holds no message at or above its bound.
pub proof fn lemma_sound_below_lacks(log: Seq<u8>, bound: u64, offset: u64)
    requires
        sound_below(log, bound),
        offset >= bound,
    ensures
        lookup(log, offset) == Lookup::Absent,
    decreases log.len(),
{
    if log.len() != 0 {
        lemma_sound_below_lacks(after_first(log), bound, offset);
    }
}

/// A sound log with the frame of one more message, stored under an offset
/// below the bound, is sound.
pub proof fn lemma_sound_below_grows(log: Seq<u8>, bound: u64, m: MessageView)
    requires
        sound_below(log, bound),
        framable(m),
        m.offset < bound,
    ensures
        sound_below(log + frame(encoding(m)), bound),
    decreases log.len(),
{
    let tail = frame(encoding(m));
    let all = log + tail;
    if log.len() == 0 {
        assert(all =~= tail + Seq::<u8>::empty());
        lemma_frame_is_read_back(m, Seq::empty());
        assert(sound_below(Seq::<u8>::empty(), bound));
        lemma_auto_spec_u32_to_from_le_bytes();
    } else {
        assert(all.subrange(0, 4) =~= log.subrange(0, 4));
        assert(all.subrange(4, 4 + announced(log)) =~= log.subrange(4, 4 + announced(log)));
        assert(after_first(all) =~= after_first(log) + tail);
        lemma_sound_below_grows(after_first(log), bound, m);
    }
}

impl SegmentView {
    /// Whether the segment claims `offset`.
    pub open spec fn contains_offset(self, offset: u64) -> bool {
        offset >= self.base_offset && offset - self.base_offset <= Segment::DEFAULT_MESSAGE_COUNT
    }

    /// The segment with one more frame, which carries `payload`.
    pub open spec fn with_frame(self, payload: Seq<u8>) -> SegmentView {
        SegmentView { log: self.log + frame(payload), ..self }
    }
}

impl Segment {
    /// The name of the first log file of a topic.
    pub const DEFAULT_LOG_PATH: &'static str = "00000.dat";

    /// How far above its base offset a segment claims offsets.
    pub const DEFAULT_MESSAGE_COUNT: u64 = 5;

    /// The segment for the log file at `path`, which starts at
    /// `base_offset` and holds `log` so far; it takes appends.
    pub fn new(base_offset: u64, path: String, log: Vec<u8>) -> (segment: Segment)
        ensures
            segment@ == (SegmentView { base_offset, path: path@, log: log@, is_active: true }),
    {
        Segment { base_offset, path, log, is_active: true }
    }

    /// The segment for the log file at `path`, which holds `log`; its base
    /// offset is the one that the file is named by, and it takes appends.
    /// `InvalidData` exactly where the file's name gives no base offset.
    pub fn load(path: &str, log: Vec<u8>) -> (r: Result<Segment, StoreError>)
        ensures
            match r {
                Ok(segment) => base_offset_of(path@) == Some(segment.base_offset) && segment@ == (
                SegmentView {
                    base_offset: segment.base_offset,
                    path: path@,
                    log: log@,
                    is_active: true,
                }),
                Err(e) => e == StoreError::InvalidData && base_offset_of(path@) is None,
            },
    {
        match parse_base_offset(path) {
            Some(base_offset) => Ok(
                Segment { base_offset, path: String::from_str(path), log, is_active: true },
            ),
            None => Err(StoreError::InvalidData),
        }
    }

    /// The frame that carries `payload`; `InvalidData` exactly where the
    /// payload is too long for a frame.
    pub fn frame_of(payload: Vec<u8>) -> (r: Result<Vec<u8>, StoreError>)
        ensures
            match r {
                Ok(bytes) => payload@.len() <= u32::MAX && bytes@ == frame(payload@),
                Err(e) => e == StoreError::InvalidData && payload@.len() > u32::MAX,
            },
    {
        if payload.len() > u32::MAX as usize {
            return Err(StoreError::InvalidData);
        }
        let mut bytes = u32_to_le_bytes(payload.len() as u32);
        let mut body = payload;
        bytes.append(&mut body);
        Ok(bytes)
    }

    /// Adds the frame that carries `payload`; `InvalidData`, and no change,
    /// exactly where the payload is too long for a frame.
    pub fn append_frame(&mut self, payload: Vec<u8>) -> (r: Result<(), StoreError>)
        ensures
            match r {
                Ok(_) => payload@.len() <= u32::MAX && final(self)@ == old(self)@.with_frame(
                    payload@,
                ),
                Err(e) => e == StoreError::InvalidData && payload@.len() > u32::MAX && final(self)@
                    == old(self)@,
            },
    {
        match Segment::frame_of(payload) {
            Ok(mut bytes) => {
                self.log.append(&mut bytes);
                Ok(())
            },
            Err(e) => Err(e),
        }
    }

    /// Stores `message` in a new frame at the end of the log and returns the
    /// offset that the next message is to carry. This fails, with
    /// `InvalidData` and no change to the log, exactly where the encoded
    /// message is too long for a frame; it never is where the payload has
    /// no more than `storable_length()` characters.
    pub fn append(&mut self, message: &Message) -> (r: Result<u64, StoreError>)
        requires
            message.offset < u64::MAX,
        ensures
            framable(message@) <==> r is Ok,
            message@.value.len() <= storable_length() ==> r is Ok,
            match r {
                Ok(next) => {
                    &&& final(self)@ == old(self)@.with_frame(encoding(message@))
                    &&& next == message.offset + 1
                },
                Err(e) => {
                    &&& final(self)@ == old(self)@
                    &&& e == StoreError::InvalidData
                },
            },
    {
        proof {
            if message@.value.len() <= storable_length() {
                lemma_short_message_is_framable(message@);
            }
        }
        match message.encode() {
            Ok(encoded) => match self.append_frame(encoded) {
                Ok(_) => Ok(message.offset + 1),
                Err(e) => Err(e),
            },
            Err(e) => Err(e),
        }
    }

    /// The first message stored under `offset`. `NotFound` where the log
    /// ends, between two frames, before such a message is met; `InvalidData`
    /// where a frame that is cut short or does not decode comes first.
    pub fn read_from(&self, offset: u64) -> (r: Result<Message, StoreError>)
        ensures
            match r {
                Ok(message) => lookup(self.log@, offset) == Lookup::Found(message@),
                Err(e) => match lookup(self.log@, offset) {
                    Lookup::Found(_) => false,
                    Lookup::Absent => e == StoreError::NotFound,
                    Lookup::Corrupt => e == StoreError::InvalidData,
                },
            },
    {
        let log = self.log.as_slice();
        let len = log.len();
        let mut pos: usize = 0;
        assert(log@.skip(0) =~= self.log@);
        loop
            invariant
                log@ == self.log@,
                len == log@.len(),
                pos <= len,
                lookup(self.log@, offset) == lookup(log@.skip(pos as int), offset),
            decreases len - pos,
        {
            let ghost rest = log@.skip(pos as int);
            let left = len - pos;
            if left == 0 {
                return Err(StoreError::NotFound);
            }
            if left < 4 {
                return Err(StoreError::InvalidData);
            }
            let prefix = slice_subrange(log, pos, pos + 4);
            assert(prefix@ =~= rest.subrange(0, 4));
            let n = u32_from_le_bytes(prefix) as usize;
            if left - 4 < n {
                return Err(StoreError::InvalidData);
            }
            let payload = slice_subrange(log, pos + 4, pos + 4 + n);
            assert(payload@ =~= rest.subrange(4, 4 + n));
            match Message::decode(payload) {
                Ok(message) => {
                    if message.offset == offset {
                        return Ok(message);
                    }
                },
                Err(_) => {
                    return Err(StoreError::InvalidData);
                },
            }
            assert(log@.skip((pos + 4 + n) as int) =~= after_first(rest));
            pos = pos + 4 + n;
        }
    }

    /// Whether the segment claims `offset`: the offset is at or above the
    /// base offset and at most `DEFAULT_MESSAGE_COUNT` above it.
    pub fn contains_offset(&self, offset: u64) -> (claims: bool)
        ensures
            claims == self@.contains_offset(offset),
    {
        offset >= self.base_offset && offset - self.base_offset <= Segment::DEFAULT_MESSAGE_COUNT
    }
}

} // verus!
