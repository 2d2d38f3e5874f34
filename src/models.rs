//! Records that the broker's responses describe, with their views.
use vstd::prelude::*;
use crate::sort::Keyed;

verus! {

/// A consumer's stored offset on a partition.
#[derive(Debug, Clone, Copy, PartialEq, Eq, Structural)]
pub struct Offset {
    pub consumer_id: u32,
    pub offset: u64,
}

/// A connected client.
#[derive(Debug, Clone, PartialEq)]
pub struct ClientInfo {
    pub id: u32,
    pub transport: String,
    pub address: String,
}

pub struct ClientInfoView {
    pub id: u32,
    pub transport: Seq<char>,
    pub address: Seq<char>,
}

impl View for ClientInfo {
    type V = ClientInfoView;

    open spec fn view(&self) -> ClientInfoView {
        ClientInfoView { id: self.id, transport: self.transport@, address: self.address@ }
    }
}

impl Keyed for ClientInfo {
    open spec fn key_of(v: ClientInfoView) -> u64 {
        v.id as u64
    }

    fn key(&self) -> (r: u64) {
        self.id as u64
    }
}

/// A message as a poll returns it.
#[derive(Debug, Clone, PartialEq)]
pub struct Message {
    pub offset: u64,
    pub timestamp: u64,
    pub id: u128,
    pub length: u32,
    pub payload: Vec<u8>,
}

pub struct MessageView {
    pub offset: u64,
    pub timestamp: u64,
    pub id: u128,
    pub length: u32,
    pub payload: Seq<u8>,
}

impl View for Message {
    type V = MessageView;

    open spec fn view(&self) -> MessageView {
        MessageView {
            offset: self.offset,
            timestamp: self.timestamp,
            id: self.id,
            length: self.length,
            payload: self.payload@,
        }
    }
}

impl Keyed for Message {
    open spec fn key_of(v: MessageView) -> u64 {
        v.offset
    }

    fn key(&self) -> (r: u64) {
        self.offset
    }
}

/// A stream in a listing.
#[derive(Debug, Clone, PartialEq)]
pub struct Stream {
    pub id: u32,
    pub topics_count: u32,
    pub name: String,
}

pub struct StreamView {
    pub id: u32,
    pub topics_count: u32,
    pub name: Seq<char>,
}

impl View for Stream {
    type V = StreamView;

    open spec fn view(&self) -> StreamView {
        StreamView { id: self.id, topics_count: self.topics_count, name: self.name@ }
    }
}

impl Keyed for Stream {
    open spec fn key_of(v: StreamView) -> u64 {
        v.id as u64
    }

    fn key(&self) -> (r: u64) {
        self.id as u64
    }
}

/// A topic in a listing.
#[derive(Debug, Clone, PartialEq)]
pub struct Topic {
    pub id: u32,
    pub partitions_count: u32,
    pub name: String,
}

pub struct TopicView {
    pub id: u32,
    pub partitions_count: u32,
    pub name: Seq<char>,
}

impl View for Topic {
    type V = TopicView;

    open spec fn view(&self) -> TopicView {
        TopicView { id: self.id, partitions_count: self.partitions_count, name: self.name@ }
    }
}

impl Keyed for Topic {
    open spec fn key_of(v: TopicView) -> u64 {
        v.id as u64
    }

    fn key(&self) -> (r: u64) {
        self.id as u64
    }
}

/// A partition of a topic.
#[derive(Debug, Clone, Copy, PartialEq, Eq, Structural)]
pub struct Partition {
    pub id: u32,
    pub segments_count: u32,
    pub current_offset: u64,
    pub size_bytes: u64,
}

impl View for Partition {
    type V = Partition;

    open spec fn view(&self) -> Partition {
        *self
    }
}

impl Keyed for Partition {
    open spec fn key_of(v: Partition) -> u64 {
        v.id as u64
    }

    fn key(&self) -> (r: u64) {
        self.id as u64
    }
}

/// A stream with its topics.
#[derive(Debug, Clone, PartialEq)]
pub struct StreamDetails {
    pub id: u32,
    pub topics_count: u32,
    pub name: String,
    pub topics: Vec<Topic>,
}

pub struct StreamDetailsView {
    pub id: u32,
    pub topics_count: u32,
    pub name: Seq<char>,
    pub topics: Seq<TopicView>,
}

impl View for StreamDetails {
    type V = StreamDetailsView;

    open spec fn view(&self) -> StreamDetailsView {
        StreamDetailsView {
            id: self.id,
            topics_count: self.topics_count,
            name: self.name@,
            topics: self.topics@.map_values(|t: Topic| t@),
        }
    }
}

/// A topic with its partitions.
#[derive(Debug, Clone, PartialEq)]
pub struct TopicDetails {
    pub id: u32,
    pub name: String,
    pub partitions_count: u32,
    pub partitions: Vec<Partition>,
}

pub struct TopicDetailsView {
    pub id: u32,
    pub name: Seq<char>,
    pub partitions_count: u32,
    pub partitions: Seq<Partition>,
}

impl View for TopicDetails {
    type V = TopicDetailsView;

    open spec fn view(&self) -> TopicDetailsView {
        TopicDetailsView {
            id: self.id,
            name: self.name@,
            partitions_count: self.partitions_count,
            partitions: self.partitions@,
        }
    }
}

} // verus!
