//! Decoding of the broker's binary responses into records.
use vstd::prelude::*;
use crate::codec::{u32_bytes, u32_le, u64_le, u128_le, read_u32_le, read_u64_le, read_u128_le, write_u32_le, lemma_u32_at, lemma_u32_le_bounds};
use crate::error::IggyError;
use crate::models::{
    ClientInfo, ClientInfoView, Message, MessageView, Offset, Partition, Stream, StreamDetails,
    StreamDetailsView, StreamView, Topic, TopicDetails, TopicDetailsView, TopicView,
};
use crate::sort::{sort_by_key, sorted_by_key, views};

verus! {

/// What `String::from_utf8` makes of a byte sequence: its text when the bytes
/// are valid UTF-8, else nothing.
pub uninterp spec fn utf8_decoded(b: Seq<u8>) -> Option<Seq<char>>;

/// Relies on `String::from_utf8`: it succeeds exactly on valid UTF-8, its text
/// depends on the bytes alone, and no bytes give no text.
#[verifier::external_body]
fn string_from_utf8(b: Vec<u8>) -> (r: Option<String>)
    ensures
        r is Some <==> utf8_decoded(b@) is Some,
        r is Some ==> r->0@ == utf8_decoded(b@)->0,
        b@.len() == 0 ==> r is Some && r->0@.len() == 0,
{
    String::from_utf8(b).ok()
}

/// The UTF-8 bytes of a text.
pub uninterp spec fn utf8_encoded(s: Seq<char>) -> Seq<u8>;

/// Relies on `String::into_bytes`: the text's UTF-8 bytes, which depend on
/// the text alone and which `String::from_utf8` turns back into the text.
#[verifier::external_body]
fn utf8_bytes(s: String) -> (r: Vec<u8>)
    ensures
        r@ == utf8_encoded(s@),
        utf8_decoded(r@) == Some(s@),
{
    s.into_bytes()
}

/// The bytes of `p` from `from` up to `to`, as a vector.
pub(crate) fn copy_range(p: &[u8], from: usize, to: usize) -> (r: Vec<u8>)
    requires
        from <= to <= p@.len(),
    ensures
        r@ == p@.subrange(from as int, to as int),
{
    let mut r: Vec<u8> = Vec::with_capacity(to - from);
    let mut i = from;
    while i < to
        invariant
            from <= i <= to <= p@.len(),
            r@ == p@.subrange(from as int, i as int),
        decreases to - i,
    {
        r.push(p[i]);
        assert(r@ =~= p@.subrange(from as int, i + 1));
        i = i + 1;
    }
    r
}

/// The text that the bytes of `p` from `from` up to `to` hold.
fn text_in(p: &[u8], from: usize, to: usize) -> (r: Result<String, IggyError>)
    requires
        from <= to <= p@.len(),
    ensures
        r is Ok <==> utf8_decoded(p@.subrange(from as int, to as int)) is Some,
        r matches Ok(s) ==> s@ == utf8_decoded(p@.subrange(from as int, to as int))->0,
        r matches Err(e) ==> e == IggyError::InvalidUtf8,
{
    match string_from_utf8(copy_range(p, from, to)) {
        Some(s) => Ok(s),
        None => Err(IggyError::InvalidUtf8),
    }
}

/// `r` with `xs` placed in front of its records.
pub open spec fn prepend<V>(xs: Seq<V>, r: Result<Seq<V>, IggyError>) -> Result<Seq<V>, IggyError> {
    match r {
        Ok(rest) => Ok(xs + rest),
        Err(e) => Err(e),
    }
}

pub open spec fn result_views<T: View>(r: Result<Vec<T>, IggyError>) -> Result<Seq<T::V>, IggyError> {
    match r {
        Ok(v) => Ok(views(v@)),
        Err(e) => Err(e),
    }
}

pub open spec fn sorted_result<T: crate::sort::Keyed>(r: Result<Seq<T::V>, IggyError>) -> Result<
    Seq<T::V>,
    IggyError,
> {
    match r {
        Ok(s) => Ok(sorted_by_key::<T>(s)),
        Err(e) => Err(e),
    }
}

proof fn lemma_prepend_assoc<V>(xs: Seq<V>, x: V, r: Result<Seq<V>, IggyError>)
    ensures
        prepend(xs, prepend(seq![x], r)) == prepend(xs.push(x), r),
{
    if let Ok(rest) = r {
        assert(xs + (seq![x] + rest) =~= xs.push(x) + rest);
    }
}

proof fn lemma_views_push<T: View>(s: Seq<T>, x: T)
    ensures
        views(s.push(x)) == views(s).push(x@),
{
    assert(views(s.push(x)) =~= views(s).push(x@));
}

// ---- offsets ----

/// An offset response: consumer id (4 bytes), then offset (8 bytes).
pub open spec fn offset_spec(p: Seq<u8>) -> Result<Offset, IggyError> {
    if p.len() < 12 {
        Err(IggyError::MalformedFrame)
    } else {
        Ok(Offset { consumer_id: u32_le(p, 0) as u32, offset: u64_le(p, 4) as u64 })
    }
}

pub fn map_offset(payload: &[u8]) -> (r: Result<Offset, IggyError>)
    ensures
        r == offset_spec(payload@),
{
    if payload.len() < 12 {
        return Err(IggyError::MalformedFrame);
    }
    let consumer_id = read_u32_le(payload, 0);
    let offset = read_u64_le(payload, 4);
    Ok(Offset { consumer_id, offset })
}

// ---- clients ----

/// The name of a transport code.
pub open spec fn transport_name(t: u8) -> Seq<char> {
    if t == 1 {
        "TCP"@
    } else if t == 2 {
        "QUIC"@
    } else {
        "Unknown"@
    }
}

/// Where the client record at `pos` ends: a 9-byte head, then the address.
pub open spec fn client_end(p: Seq<u8>, pos: int) -> int {
    pos + 9 + u32_le(p, pos + 5)
}

#[via_fn]
proof fn clients_from_decreases(p: Seq<u8>, pos: int) {
    lemma_u32_le_bounds(p, pos + 5);
}

/// The client records from `pos` to the end of `p`: id (4 bytes), transport
/// code (1 byte), address length (4 bytes), address.
pub open spec fn clients_from(p: Seq<u8>, pos: int) -> Result<Seq<ClientInfoView>, IggyError>
    decreases p.len() - pos
    via clients_from_decreases
{
    if pos >= p.len() {
        Ok(Seq::empty())
    } else if pos + 9 > p.len() || client_end(p, pos) > p.len() {
        Err(IggyError::MalformedFrame)
    } else {
        match utf8_decoded(p.subrange(pos + 9, client_end(p, pos))) {
            None => Err(IggyError::InvalidUtf8),
            Some(address) => prepend(
                seq![
                    ClientInfoView {
                        id: u32_le(p, pos) as u32,
                        transport: transport_name(p[pos + 4]),
                        address,
                    },
                ],
                clients_from(p, client_end(p, pos)),
            ),
        }
    }
}

fn transport_string(t: u8) -> (r: String)
    ensures
        r@ == transport_name(t),
{
    if t == 1 {
        String::from_str("TCP")
    } else if t == 2 {
        String::from_str("QUIC")
    } else {
        String::from_str("Unknown")
    }
}

/// Decodes a list of clients, ordered by id.
pub fn map_clients(payload: &[u8]) -> (r: Result<Vec<ClientInfo>, IggyError>)
    ensures
        result_views(r) == sorted_result::<ClientInfo>(clients_from(payload@, 0)),
{
    let length = payload.len();
    let mut clients: Vec<ClientInfo> = Vec::new();
    let mut position: usize = 0;
    assert(prepend(views(clients@), clients_from(payload@, 0)) =~= clients_from(payload@, 0)) by {
        assert(views(clients@) =~= Seq::<ClientInfoView>::empty());
        if let Ok(s) = clients_from(payload@, 0) {
            assert(Seq::<ClientInfoView>::empty() + s =~= s);
        }
    }
    while position < length
        invariant
            length == payload@.len(),
            position <= length,
            clients_from(payload@, 0) == prepend(
                views(clients@),
                clients_from(payload@, position as int),
            ),
        decreases length - position,
    {
        if length - position < 9 {
            return Err(IggyError::MalformedFrame);
        }
        let id = read_u32_le(payload, position);
        let transport = transport_string(payload[position + 4]);
        let address_length = read_u32_le(payload, position + 5) as usize;
        if address_length > length - position - 9 {
            return Err(IggyError::MalformedFrame);
        }
        let end = position + 9 + address_length;
        let address = match text_in(payload, position + 9, end) {
            Ok(a) => a,
            Err(e) => {
                return Err(e);
            },
        };
        let client = ClientInfo { id, transport, address };
        proof {
            lemma_prepend_assoc(views(clients@), client@, clients_from(payload@, end as int));
            lemma_views_push(clients@, client);
        }
        clients.push(client);
        position = end;
    }
    Ok(sort_by_key(clients))
}

// ---- messages ----

/// Size of the fixed head of a message: offset, timestamp, id, length.
pub const MESSAGE_HEAD: usize = 36;

/// Where the message at `pos` ends: its head, then its payload.
pub open spec fn message_end(p: Seq<u8>, pos: int) -> int {
    pos + 36 + u32_le(p, pos + 32)
}

pub open spec fn message_at(p: Seq<u8>, pos: int) -> MessageView {
    MessageView {
        offset: u64_le(p, pos) as u64,
        timestamp: u64_le(p, pos + 8) as u64,
        id: u128_le(p, pos + 16) as u128,
        length: u32_le(p, pos + 32) as u32,
        payload: p.subrange(pos + 36, message_end(p, pos)),
    }
}

#[via_fn]
proof fn messages_from_decreases(p: Seq<u8>, pos: int) {
    lemma_u32_le_bounds(p, pos + 32);
}

/// The messages from `pos` on. A message whose payload runs past the end
/// ends the list, as does a tail too short for another head.
pub open spec fn messages_from(p: Seq<u8>, pos: int) -> Result<Seq<MessageView>, IggyError>
    decreases p.len() - pos
    via messages_from_decreases
{
    if pos >= p.len() {
        Ok(Seq::empty())
    } else if pos + 36 > p.len() {
        Err(IggyError::MalformedFrame)
    } else if message_end(p, pos) > p.len() {
        Ok(Seq::empty())
    } else if message_end(p, pos) + 36 > p.len() {
        Ok(seq![message_at(p, pos)])
    } else {
        prepend(seq![message_at(p, pos)], messages_from(p, message_end(p, pos)))
    }
}

/// A poll response: a 4-byte message count, then the messages.
pub open spec fn messages_spec(p: Seq<u8>) -> Result<Seq<MessageView>, IggyError> {
    sorted_result::<Message>(messages_from(p, 4))
}

/// Decodes the messages of a poll response, ordered by offset.
pub fn map_messages(payload: &[u8]) -> (r: Result<Vec<Message>, IggyError>)
    ensures
        result_views(r) == messages_spec(payload@),
{
    let length = payload.len();
    let mut messages: Vec<Message> = Vec::new();
    let mut position: usize = 4;
    assert(prepend(views(messages@), messages_from(payload@, 4)) =~= messages_from(payload@, 4))
        by {
        assert(views(messages@) =~= Seq::<MessageView>::empty());
        if let Ok(s) = messages_from(payload@, 4) {
            assert(Seq::<MessageView>::empty() + s =~= s);
        }
    }
    while position < length
        invariant
            length == payload@.len(),
            4 <= position,
            messages_from(payload@, 4) == prepend(
                views(messages@),
                messages_from(payload@, position as int),
            ),
        decreases length - position,
    {
        if length - position < MESSAGE_HEAD {
            return Err(IggyError::MalformedFrame);
        }
        let offset = read_u64_le(payload, position);
        let timestamp = read_u64_le(payload, position + 8);
        let id = read_u128_le(payload, position + 16);
        let message_length = read_u32_le(payload, position + 32);
        if message_length as usize > length - position - MESSAGE_HEAD {
            assert(messages_from(payload@, position as int) == Ok::<Seq<MessageView>, IggyError>(Seq::empty()));
            assert(prepend(views(messages@), Ok(Seq::<MessageView>::empty())) =~= Ok(
                views(messages@),
            ));
            return Ok(sort_by_key(messages));
        }
        let end = position + MESSAGE_HEAD + message_length as usize;
        let payload_bytes = copy_range(payload, position + MESSAGE_HEAD, end);
        let message = Message {
            offset,
            timestamp,
            id,
            length: message_length,
            payload: payload_bytes,
        };
        assert(message@ == message_at(payload@, position as int));
        let ghost prev = messages@;
        proof {
            lemma_views_push(messages@, message);
        }
        messages.push(message);
        if end >= length || length - end < MESSAGE_HEAD {
            assert(messages_from(payload@, position as int) == Ok::<Seq<MessageView>, IggyError>(seq![message@]));
            assert(prepend(views(prev), Ok(seq![message@])) =~= Ok(views(messages@)));
            return Ok(sort_by_key(messages));
        }
        proof {
            lemma_prepend_assoc(views(prev), message@, messages_from(payload@, end as int));
        }
        position = end;
    }
    assert(prepend(views(messages@), messages_from(payload@, position as int)) =~= Ok(
        views(messages@),
    ));
    Ok(sort_by_key(messages))
}

// ---- streams and topics ----

/// Where the named record at `pos` ends: a 12-byte head, then the name.
pub open spec fn named_end(p: Seq<u8>, pos: int) -> int {
    pos + 12 + u32_le(p, pos + 8)
}

/// The named record at `pos`: id (4 bytes), count (4 bytes), name length
/// (4 bytes), name. Streams and topics share this layout.
pub open spec fn named_at(p: Seq<u8>, pos: int) -> Result<(u32, u32, Seq<char>), IggyError> {
    if pos + 12 > p.len() || named_end(p, pos) > p.len() {
        Err(IggyError::MalformedFrame)
    } else {
        match utf8_decoded(p.subrange(pos + 12, named_end(p, pos))) {
            None => Err(IggyError::InvalidUtf8),
            Some(name) => Ok((u32_le(p, pos) as u32, u32_le(p, pos + 4) as u32, name)),
        }
    }
}

pub open spec fn stream_at(p: Seq<u8>, pos: int) -> Result<(StreamView, int), IggyError> {
    match named_at(p, pos) {
        Ok((id, topics_count, name)) => Ok(
            (StreamView { id, topics_count, name }, named_end(p, pos) - pos),
        ),
        Err(e) => Err(e),
    }
}

pub open spec fn topic_at(p: Seq<u8>, pos: int) -> Result<(TopicView, int), IggyError> {
    match named_at(p, pos) {
        Ok((id, partitions_count, name)) => Ok(
            (TopicView { id, partitions_count, name }, named_end(p, pos) - pos),
        ),
        Err(e) => Err(e),
    }
}

#[via_fn]
proof fn streams_from_decreases(p: Seq<u8>, pos: int) {
    lemma_u32_le_bounds(p, pos + 8);
}

pub open spec fn streams_from(p: Seq<u8>, pos: int) -> Result<Seq<StreamView>, IggyError>
    decreases p.len() - pos
    via streams_from_decreases
{
    if pos >= p.len() {
        Ok(Seq::empty())
    } else {
        match named_at(p, pos) {
            Err(e) => Err(e),
            Ok((id, topics_count, name)) => prepend(
                seq![StreamView { id, topics_count, name }],
                streams_from(p, named_end(p, pos)),
            ),
        }
    }
}

#[via_fn]
proof fn topics_from_decreases(p: Seq<u8>, pos: int) {
    lemma_u32_le_bounds(p, pos + 8);
}

pub open spec fn topics_from(p: Seq<u8>, pos: int) -> Result<Seq<TopicView>, IggyError>
    decreases p.len() - pos
    via topics_from_decreases
{
    if pos >= p.len() {
        Ok(Seq::empty())
    } else {
        match named_at(p, pos) {
            Err(e) => Err(e),
            Ok((id, partitions_count, name)) => prepend(
                seq![TopicView { id, partitions_count, name }],
                topics_from(p, named_end(p, pos)),
            ),
        }
    }
}

/// Reads the named record at `position`.
fn read_named(payload: &[u8], position: usize) -> (r: Result<(u32, u32, String, usize), IggyError>)
    ensures
        match (r, named_at(payload@, position as int)) {
            (Ok((id, count, name, end)), Ok((sid, scount, sname))) => id == sid && count == scount
                && name@ == sname && end == named_end(payload@, position as int),
            (Err(e), Err(se)) => e == se,
            _ => false,
        },
        r matches Ok((_, _, _, end)) ==> end >= position + 12,
{
    let length = payload.len();
    if position > length || length - position < 12 {
        return Err(IggyError::MalformedFrame);
    }
    let id = read_u32_le(payload, position);
    let count = read_u32_le(payload, position + 4);
    let name_length = read_u32_le(payload, position + 8) as usize;
    if name_length > length - position - 12 {
        return Err(IggyError::MalformedFrame);
    }
    let end = position + 12 + name_length;
    match text_in(payload, position + 12, end) {
        Ok(name) => Ok((id, count, name, end)),
        Err(e) => Err(e),
    }
}

/// Reads the stream at `position`, with the number of bytes it takes.
pub fn map_to_stream(payload: &[u8], position: usize) -> (r: Result<(Stream, usize), IggyError>)
    ensures
        match (r, stream_at(payload@, position as int)) {
            (Ok((s, n)), Ok((sv, sn))) => s@ == sv && n == sn,
            (Err(e), Err(se)) => e == se,
            _ => false,
        },
        r matches Ok((_, n)) ==> n >= 12,
{
    match read_named(payload, position) {
        Ok((id, topics_count, name, end)) => Ok((Stream { id, topics_count, name }, end - position)),
        Err(e) => Err(e),
    }
}

/// Reads the topic at `position`, with the number of bytes it takes.
pub fn map_to_topic(payload: &[u8], position: usize) -> (r: Result<(Topic, usize), IggyError>)
    ensures
        match (r, topic_at(payload@, position as int)) {
            (Ok((t, n)), Ok((tv, tn))) => t@ == tv && n == tn,
            (Err(e), Err(te)) => e == te,
            _ => false,
        },
        r matches Ok((_, n)) ==> n >= 12,
{
    match read_named(payload, position) {
        Ok((id, partitions_count, name, end)) => Ok(
            (Topic { id, partitions_count, name }, end - position),
        ),
        Err(e) => Err(e),
    }
}

/// Reads the topics from `position` to the end, in the order they appear.
fn read_topics(payload: &[u8], start: usize) -> (r: Result<Vec<Topic>, IggyError>)
    ensures
        result_views(r) == topics_from(payload@, start as int),
{
    let length = payload.len();
    let mut topics: Vec<Topic> = Vec::new();
    let mut position = start;
    assert(prepend(views(topics@), topics_from(payload@, start as int)) =~= topics_from(
        payload@,
        start as int,
    )) by {
        assert(views(topics@) =~= Seq::<TopicView>::empty());
        if let Ok(s) = topics_from(payload@, start as int) {
            assert(Seq::<TopicView>::empty() + s =~= s);
        }
    }
    while position < length
        invariant
            length == payload@.len(),
            topics_from(payload@, start as int) == prepend(
                views(topics@),
                topics_from(payload@, position as int),
            ),
        decreases length - position,
    {
        let (topic, read_bytes) = match map_to_topic(payload, position) {
            Ok(x) => x,
            Err(e) => {
                return Err(e);
            },
        };
        let ghost end = named_end(payload@, position as int);
        proof {
            lemma_prepend_assoc(views(topics@), topic@, topics_from(payload@, end));
            lemma_views_push(topics@, topic);
        }
        topics.push(topic);
        position = position + read_bytes;
    }
    assert(prepend(views(topics@), topics_from(payload@, position as int)) =~= Ok(
        views(topics@),
    ));
    Ok(topics)
}

/// Decodes a list of streams, ordered by id.
pub fn map_streams(payload: &[u8]) -> (r: Result<Vec<Stream>, IggyError>)
    ensures
        result_views(r) == sorted_result::<Stream>(streams_from(payload@, 0)),
{
    let length = payload.len();
    let mut streams: Vec<Stream> = Vec::new();
    let mut position: usize = 0;
    assert(prepend(views(streams@), streams_from(payload@, 0)) =~= streams_from(payload@, 0)) by {
        assert(views(streams@) =~= Seq::<StreamView>::empty());
        if let Ok(s) = streams_from(payload@, 0) {
            assert(Seq::<StreamView>::empty() + s =~= s);
        }
    }
    while position < length
        invariant
            length == payload@.len(),
            streams_from(payload@, 0) == prepend(
                views(streams@),
                streams_from(payload@, position as int),
            ),
        decreases length - position,
    {
        let (stream, read_bytes) = match map_to_stream(payload, position) {
            Ok(x) => x,
            Err(e) => {
                return Err(e);
            },
        };
        let ghost end = named_end(payload@, position as int);
        proof {
            lemma_prepend_assoc(views(streams@), stream@, streams_from(payload@, end));
            lemma_views_push(streams@, stream);
        }
        streams.push(stream);
        position = position + read_bytes;
    }
    assert(prepend(views(streams@), streams_from(payload@, position as int)) =~= Ok(
        views(streams@),
    ));
    Ok(sort_by_key(streams))
}

/// Decodes a list of topics, ordered by id.
pub fn map_topics(payload: &[u8]) -> (r: Result<Vec<Topic>, IggyError>)
    ensures
        result_views(r) == sorted_result::<Topic>(topics_from(payload@, 0)),
{
    match read_topics(payload, 0) {
        Ok(topics) => Ok(sort_by_key(topics)),
        Err(e) => Err(e),
    }
}

/// A stream's details: the stream, then its topics ordered by id.
pub open spec fn stream_details_spec(p: Seq<u8>) -> Result<StreamDetailsView, IggyError> {
    match named_at(p, 0) {
        Err(e) => Err(e),
        Ok((id, topics_count, name)) => match topics_from(p, named_end(p, 0)) {
            Err(e) => Err(e),
            Ok(topics) => Ok(
                StreamDetailsView {
                    id,
                    topics_count,
                    name,
                    topics: sorted_by_key::<Topic>(topics),
                },
            ),
        },
    }
}

/// Decodes a stream with its topics, the topics ordered by id.
pub fn map_stream(payload: &[u8]) -> (r: Result<StreamDetails, IggyError>)
    ensures
        match r {
            Ok(d) => Ok(d@),
            Err(e) => Err(e),
        } == stream_details_spec(payload@),
{
    let (stream, position) = match map_to_stream(payload, 0) {
        Ok(x) => x,
        Err(e) => {
            return Err(e);
        },
    };
    let topics = match read_topics(payload, position) {
        Ok(t) => sort_by_key(t),
        Err(e) => {
            return Err(e);
        },
    };
    Ok(StreamDetails { id: stream.id, topics_count: stream.topics_count, name: stream.name, topics })
}

// ---- partitions ----

/// A partition record: id (4 bytes), segment count (4 bytes), current offset
/// (8 bytes), size in bytes (8 bytes).
pub open spec fn partition_at(p: Seq<u8>, pos: int) -> Partition {
    Partition {
        id: u32_le(p, pos) as u32,
        segments_count: u32_le(p, pos + 4) as u32,
        current_offset: u64_le(p, pos + 8) as u64,
        size_bytes: u64_le(p, pos + 16) as u64,
    }
}

pub open spec fn partitions_from(p: Seq<u8>, pos: int) -> Result<Seq<Partition>, IggyError>
    decreases p.len() - pos,
{
    if pos >= p.len() {
        Ok(Seq::empty())
    } else if pos + 24 > p.len() {
        Err(IggyError::MalformedFrame)
    } else {
        prepend(seq![partition_at(p, pos)], partitions_from(p, pos + 24))
    }
}

/// Reads the partition at `position`, with the number of bytes it takes.
pub fn map_to_partition(payload: &[u8], position: usize) -> (r: Result<(Partition, usize), IggyError>)
    ensures
        position + 24 <= payload@.len() ==> r == Ok::<(Partition, usize), IggyError>(
            (partition_at(payload@, position as int), 24),
        ),
        position + 24 > payload@.len() ==> r == Err::<(Partition, usize), IggyError>(
            IggyError::MalformedFrame,
        ),
{
    let length = payload.len();
    if position > length || length - position < 24 {
        return Err(IggyError::MalformedFrame);
    }
    let id = read_u32_le(payload, position);
    let segments_count = read_u32_le(payload, position + 4);
    let current_offset = read_u64_le(payload, position + 8);
    let size_bytes = read_u64_le(payload, position + 16);
    Ok((Partition { id, segments_count, current_offset, size_bytes }, 24))
}

/// A topic's details: the topic, then its partitions ordered by id.
pub open spec fn topic_details_spec(p: Seq<u8>) -> Result<TopicDetailsView, IggyError> {
    match named_at(p, 0) {
        Err(e) => Err(e),
        Ok((id, _count, name)) => match partitions_from(p, named_end(p, 0)) {
            Err(e) => Err(e),
            Ok(partitions) => Ok(
                TopicDetailsView {
                    id,
                    name,
                    partitions_count: partitions.len() as u32,
                    partitions: sorted_by_key::<Partition>(partitions),
                },
            ),
        },
    }
}

/// Decodes a topic with its partitions, the partitions ordered by id; the
/// partition count is the number of partitions decoded.
pub fn map_topic(payload: &[u8]) -> (r: Result<TopicDetails, IggyError>)
    ensures
        match r {
            Ok(d) => Ok(d@),
            Err(e) => Err(e),
        } == topic_details_spec(payload@),
{
    let (topic, start) = match map_to_topic(payload, 0) {
        Ok(x) => x,
        Err(e) => {
            return Err(e);
        },
    };
    assert(named_at(payload@, 0) is Ok && start == named_end(payload@, 0));
    let length = payload.len();
    let mut partitions: Vec<Partition> = Vec::new();
    let mut position = start;
    assert(prepend(partitions@, partitions_from(payload@, start as int)) =~= partitions_from(
        payload@,
        start as int,
    )) by {
        if let Ok(s) = partitions_from(payload@, start as int) {
            assert(Seq::<Partition>::empty() + s =~= s);
        }
    }
    while position < length
        invariant
            length == payload@.len(),
            named_at(payload@, 0) is Ok && start == named_end(payload@, 0),
            partitions_from(payload@, start as int) == prepend(
                partitions@,
                partitions_from(payload@, position as int),
            ),
        decreases length - position,
    {
        let (partition, read_bytes) = match map_to_partition(payload, position) {
            Ok(x) => x,
            Err(e) => {
                assert(partitions_from(payload@, position as int) == Err::<Seq<Partition>, IggyError>(e));
                return Err(e);
            },
        };
        proof {
            lemma_prepend_assoc(partitions@, partition, partitions_from(payload@, position + 24));
        }
        partitions.push(partition);
        position = position + read_bytes;
    }
    assert(prepend(partitions@, partitions_from(payload@, position as int)) =~= Ok(partitions@));
    let count = #[verifier::truncate] (partitions.len() as u32);
    let ghost parsed = partitions@;
    let partitions = sort_by_key(partitions);
    assert(views(parsed) =~= parsed);
    assert(views(partitions@) =~= partitions@);
    Ok(TopicDetails { id: topic.id, name: topic.name, partitions_count: count, partitions })
}

// ---- encoding a stream ----

/// The bytes of a stream record: id, topic count, name length, UTF-8 name.
pub open spec fn stream_bytes(s: StreamView) -> Seq<u8> {
    u32_bytes(s.id) + u32_bytes(s.topics_count) + u32_bytes(utf8_encoded(s.name).len() as u32)
        + utf8_encoded(s.name)
}

/// Encodes a stream as the response to its creation; `None` when its name
/// takes more bytes than a 32-bit length can count. Reading the bytes back
/// gives the stream.
pub fn encode_stream(stream: &Stream) -> (r: Option<Vec<u8>>)
    ensures
        r is None <==> utf8_encoded(stream.name@).len() > u32::MAX,
        r matches Some(b) ==> b@ == stream_bytes(stream@) && stream_at(b@, 0) == Ok::<
            (StreamView, int),
            IggyError,
        >((stream@, b@.len() as int)),
{
    let name = utf8_bytes(stream.name.clone());
    if name.len() > 4294967295 {
        return None;
    }
    let mut out: Vec<u8> = Vec::new();
    write_u32_le(&mut out, stream.id);
    write_u32_le(&mut out, stream.topics_count);
    write_u32_le(&mut out, name.len() as u32);
    let ghost head = out@;
    let mut i: usize = 0;
    while i < name.len()
        invariant
            i <= name@.len(),
            out@ == head + name@.subrange(0, i as int),
        decreases name@.len() - i,
    {
        out.push(name[i]);
        assert(out@ =~= head + name@.subrange(0, i + 1));
        i = i + 1;
    }
    assert(name@.subrange(0, i as int) =~= name@);
    let ghost b = out@;
    assert(b =~= stream_bytes(stream@));
    assert(b.subrange(0, 4) =~= u32_bytes(stream.id));
    assert(b.subrange(4, 8) =~= u32_bytes(stream.topics_count));
    assert(b.subrange(8, 12) =~= u32_bytes(name@.len() as u32));
    proof {
        lemma_u32_at(b, 0, stream.id);
        lemma_u32_at(b, 4, stream.topics_count);
        lemma_u32_at(b, 8, name@.len() as u32);
    }
    assert(b.subrange(12, named_end(b, 0)) =~= name@);
    Some(out)
}

} // verus!
