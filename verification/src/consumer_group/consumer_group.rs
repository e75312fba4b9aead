//! A consumer group hands appends and reads on to a topic and keeps no
//! state of the topic itself.

use vstd::prelude::*;
use vstd::string::StringExecFns;

use crate::error::StoreError;
use crate::message::Message;
use crate::queue::topic::{active_place, Topic};
use crate::storage::segment::{framable, storable_length, Lookup};

verus! {

/// A named group of consumers.
pub struct ConsumerGroup {
    name: String,
}

impl ConsumerGroup {
    /// The name of the group.
    pub closed spec fn name(&self) -> Seq<char> {
        self.name@
    }

    /// A group with the given name.
    pub fn new(consumer_group_name: &str) -> (group: ConsumerGroup)
        ensures
            group.name() == consumer_group_name@,
    {
        ConsumerGroup { name: String::from_str(consumer_group_name) }
    }

    /// Stores `payload` in `topic`, as [`Topic::append`] does, and returns
    /// the offset that the next message will get, exactly where the topic
    /// accepts the payload. The group is unchanged.
    pub fn append(&mut self, topic: &mut Topic, payload: &str) -> (r: Result<u64, StoreError>)
        requires
            active_place(old(topic)@.segments) is Some ==> old(topic).next_offset < u64::MAX,
        ensures
            *final(self) == *old(self),
            old(topic)@.accepts(payload@) <==> r is Ok,
            active_place(old(topic)@.segments) is Some && payload@.len() <= storable_length()
                ==> r is Ok,
            match r {
                Ok(next) => {
                    &&& final(topic)@ == old(topic)@.appended(payload@)
                    &&& next == old(topic).next_offset + 1
                    &&& active_place(final(topic)@.segments) == active_place(
                        old(topic)@.segments,
                    )
                },
                Err(e) => {
                    &&& final(topic)@ == old(topic)@
                    &&& match e {
                        StoreError::NotFound => active_place(old(topic)@.segments) is None,
                        StoreError::InvalidData => active_place(old(topic)@.segments) is Some
                            && !framable(old(topic)@.message_for(payload@)),
                        StoreError::Io => false,
                    }
                },
            },
    {
        topic.append(String::from_str(payload))
    }

    /// The message stored under `offset` in `topic`, as [`Topic::read`]
    /// finds it. The group is unchanged.
    pub fn read(&mut self, topic: &Topic, offset: u64) -> (r: Result<Message, StoreError>)
        ensures
            *final(self) == *old(self),
            match r {
                Ok(message) => topic@.read(offset) == Lookup::Found(message@),
                Err(e) => match topic@.read(offset) {
                    Lookup::Found(_) => false,
                    Lookup::Absent => e == StoreError::NotFound,
                    Lookup::Corrupt => e == StoreError::InvalidData,
                },
            },
    {
        topic.read(offset)
    }
}

} // verus!
