//! Encoding of poll responses and segment logs, the inverse of
//! `mapper::map_messages`, and recovery from a written log.
use vstd::prelude::*;
use crate::codec::{
    u32_bytes, u64_bytes, u128_bytes, write_u32_le, write_u64_le, write_u128_le, lemma_u32_at,
    lemma_u64_at, lemma_u128_at, u64_le,
};
use crate::error::IggyError;
use crate::mapper::{messages_from, messages_spec, message_at, message_end, prepend};
use crate::models::{Message, MessageView};
use crate::partition::PartitionLog;
use crate::samplers::{sample_outcome, BinarySchema, ServerCompatError};
use crate::sort::{sorted_by_key, views};

verus! {

/// The bytes of one message: offset, timestamp, id, payload length, payload.
pub open spec fn message_bytes_of(m: MessageView) -> Seq<u8> {
    u64_bytes(m.offset) + u64_bytes(m.timestamp) + u128_bytes(m.id) + u32_bytes(
        m.payload.len() as u32,
    ) + m.payload
}

/// The bytes of a run of messages, one after another.
pub open spec fn messages_body(s: Seq<MessageView>) -> Seq<u8>
    decreases s.len(),
{
    if s.len() == 0 {
        Seq::empty()
    } else {
        messages_body(s.drop_last()) + message_bytes_of(s.last())
    }
}

/// A poll response: the message count, then the messages.
pub open spec fn response_bytes(s: Seq<MessageView>) -> Seq<u8> {
    u32_bytes(s.len() as u32) + messages_body(s)
}

/// Messages that the response layout can carry and give back: each length
/// field is its payload's length and the list is ordered by offset.
pub open spec fn encodable(s: Seq<MessageView>) -> bool {
    &&& s.len() <= u32::MAX
    &&& forall|i: int| 0 <= i < s.len() ==> (#[trigger] s[i]).length == s[i].payload.len()
    &&& forall|i: int, j: int| 0 <= i < j < s.len() ==> (#[trigger] s[i]).offset <= (#[trigger] s[j]).offset
}

/// Appends the messages from index `from` up to `to` to `out`.
fn write_body(out: &mut Vec<u8>, messages: &Vec<Message>, from: usize, to: usize)
    requires
        from <= to <= messages@.len(),
        forall|i: int| 0 <= i < messages@.len() ==> (#[trigger] messages@[i]).payload@.len() <= u32::MAX,
    ensures
        final(out)@ == old(out)@ + messages_body(views(messages@).subrange(from as int, to as int)),
{
    let ghost s = views(messages@);
    let ghost start = out@;
    let mut i: usize = from;
    assert(s.subrange(from as int, from as int) =~= Seq::<MessageView>::empty());
    assert(out@ =~= start + messages_body(s.subrange(from as int, from as int)));
    while i < to
        invariant
            s == views(messages@),
            from <= i <= to <= messages@.len(),
            forall|k: int| 0 <= k < messages@.len() ==> (#[trigger] messages@[k]).payload@.len() <= u32::MAX,
            out@ == start + messages_body(s.subrange(from as int, i as int)),
        decreases to - i,
    {
        let m = &messages[i];
        let ghost before = out@;
        write_u64_le(out, m.offset);
        write_u64_le(out, m.timestamp);
        write_u128_le(out, m.id);
        write_u32_le(out, m.payload.len() as u32);
        let mut j: usize = 0;
        let ghost head = out@;
        while j < m.payload.len()
            invariant
                j <= m.payload@.len(),
                out@ == head + m.payload@.subrange(0, j as int),
            decreases m.payload@.len() - j,
        {
            out.push(m.payload[j]);
            assert(out@ =~= head + m.payload@.subrange(0, j + 1));
            j = j + 1;
        }
        assert(m.payload@.subrange(0, j as int) =~= m.payload@);
        assert(s.subrange(from as int, i + 1).drop_last() =~= s.subrange(from as int, i as int));
        assert(s[i as int] == m@);
        assert(out@ =~= before + message_bytes_of(m@));
        i = i + 1;
    }
}

/// Encodes a poll response.
pub fn encode_messages(messages: &Vec<Message>) -> (r: Vec<u8>)
    requires
        messages@.len() <= u32::MAX,
        forall|i: int| 0 <= i < messages@.len() ==> (#[trigger] messages@[i]).payload@.len() <= u32::MAX,
    ensures
        r@ == response_bytes(views(messages@)),
{
    let mut out: Vec<u8> = Vec::new();
    write_u32_le(&mut out, messages.len() as u32);
    write_body(&mut out, messages, 0, messages.len());
    assert(views(messages@).subrange(0, messages@.len() as int) =~= views(messages@));
    out
}

proof fn lemma_body_front(s: Seq<MessageView>)
    requires
        s.len() > 0,
    ensures
        messages_body(s) == message_bytes_of(s[0]) + messages_body(s.drop_first()),
    decreases s.len(),
{
    if s.len() == 1 {
        assert(s.drop_first() =~= Seq::<MessageView>::empty());
        assert(s.drop_last() =~= Seq::<MessageView>::empty());
        assert(messages_body(s) =~= message_bytes_of(s[0]) + messages_body(s.drop_first()));
    } else {
        lemma_body_front(s.drop_last());
        assert(s.drop_last().drop_first() =~= s.drop_first().drop_last());
        assert(messages_body(s) =~= message_bytes_of(s[0]) + messages_body(s.drop_first()));
    }
}

proof fn lemma_body_len(s: Seq<MessageView>)
    ensures
        messages_body(s).len() >= 36 * s.len(),
        s.len() == 1 ==> messages_body(s).len() == 36 + s[0].payload.len(),
    decreases s.len(),
{
    if s.len() > 0 {
        lemma_body_len(s.drop_last());
        if s.len() == 1 {
            assert(s.drop_last() =~= Seq::<MessageView>::empty());
        }
    }
}

proof fn lemma_message_bytes_parts(m: MessageView)
    ensures
        ({
            let mb = message_bytes_of(m);
            &&& mb.len() == 36 + m.payload.len()
            &&& mb.subrange(0, 8) == u64_bytes(m.offset)
            &&& mb.subrange(8, 16) == u64_bytes(m.timestamp)
            &&& mb.subrange(16, 32) == u128_bytes(m.id)
            &&& mb.subrange(32, 36) == u32_bytes(m.payload.len() as u32)
            &&& mb.subrange(36, mb.len() as int) == m.payload
        }),
{
    let mb = message_bytes_of(m);
    assert(mb.subrange(0, 8) =~= u64_bytes(m.offset));
    assert(mb.subrange(8, 16) =~= u64_bytes(m.timestamp));
    assert(mb.subrange(16, 32) =~= u128_bytes(m.id));
    assert(mb.subrange(32, 36) =~= u32_bytes(m.payload.len() as u32));
    assert(mb.subrange(36, mb.len() as int) =~= m.payload);
}

proof fn lemma_message_head(pre: Seq<u8>, m: MessageView, post: Seq<u8>)
    requires
        m.length == m.payload.len(),
        m.payload.len() <= u32::MAX,
    ensures
        ({
            let p = pre + message_bytes_of(m) + post;
            let pos = pre.len() as int;
            &&& pos + 36 <= p.len()
            &&& message_end(p, pos) == pos + 36 + m.payload.len()
            &&& message_at(p, pos) == m
        }),
{
    let mb = message_bytes_of(m);
    let p = pre + mb + post;
    let pos = pre.len() as int;
    lemma_message_bytes_parts(m);
    assert(forall|a: int, b: int| 0 <= a <= b <= mb.len() ==> #[trigger] p.subrange(pos + a, pos + b)
        =~= mb.subrange(a, b));
    assert(p.subrange(pos, pos + 8) == mb.subrange(0, 8));
    assert(p.subrange(pos + 8, pos + 16) == mb.subrange(8, 16));
    assert(p.subrange(pos + 16, pos + 32) == mb.subrange(16, 32));
    assert(p.subrange(pos + 32, pos + 36) == mb.subrange(32, 36));
    lemma_u64_at(p, pos, m.offset);
    lemma_u64_at(p, pos + 8, m.timestamp);
    lemma_u128_at(p, pos + 16, m.id);
    lemma_u32_at(p, pos + 32, m.payload.len() as u32);
    assert(message_end(p, pos) == pos + 36 + m.payload.len());
    assert(p.subrange(pos + 36, pos + mb.len()) == mb.subrange(36, mb.len() as int));
}

proof fn lemma_decode_step(pre: Seq<u8>, m: MessageView, br: Seq<u8>)
    requires
        pre.len() >= 4,
        m.length == m.payload.len(),
        m.payload.len() <= u32::MAX,
    ensures
        br.len() == 0 ==> messages_from(pre + message_bytes_of(m) + br, pre.len() as int) == Ok::<
            Seq<MessageView>,
            IggyError,
        >(seq![m]),
        br.len() >= 36 ==> messages_from(pre + message_bytes_of(m) + br, pre.len() as int)
            == prepend(
            seq![m],
            messages_from(
                pre + message_bytes_of(m) + br,
                (pre + message_bytes_of(m)).len() as int,
            ),
        ),
{
    lemma_message_head(pre, m, br);
}

proof fn lemma_decode_body(pre: Seq<u8>, s: Seq<MessageView>)
    requires
        pre.len() >= 4,
        forall|i: int| 0 <= i < s.len() ==> (#[trigger] s[i]).length == s[i].payload.len()
            && s[i].payload.len() <= u32::MAX,
    ensures
        messages_from(pre + messages_body(s), pre.len() as int) == Ok::<
            Seq<MessageView>,
            IggyError,
        >(s),
    decreases s.len(),
{
    if s.len() == 0 {
        assert(pre + messages_body(s) =~= pre);
        assert(s =~= Seq::<MessageView>::empty());
    } else {
        let m = s[0];
        let rest = s.drop_first();
        let br = messages_body(rest);
        let next = pre + message_bytes_of(m);
        lemma_body_front(s);
        assert(pre + messages_body(s) =~= next + br);
        lemma_body_len(rest);
        lemma_decode_step(pre, m, br);
        if s.len() == 1 {
            assert(seq![m] =~= s);
        } else {
            assert forall|i: int| 0 <= i < rest.len() implies (#[trigger] rest[i]).length
                == rest[i].payload.len() && rest[i].payload.len() <= u32::MAX by {
                assert(rest[i] == s[i + 1]);
            }
            lemma_decode_body(next, rest);
            assert(seq![m] + rest =~= s);
        }
    }
}

proof fn lemma_sorted_identity(s: Seq<MessageView>)
    requires
        forall|i: int, j: int| 0 <= i < j < s.len() ==> (#[trigger] s[i]).offset <= (#[trigger] s[j]).offset,
    ensures
        sorted_by_key::<Message>(s) == s,
    decreases s.len(),
{
    if s.len() > 0 {
        let d = s.drop_last();
        assert forall|i: int, j: int| 0 <= i < j < d.len() implies (#[trigger] d[i]).offset <= (#[trigger] d[j]).offset by {
            assert(d[i] == s[i] && d[j] == s[j]);
        }
        lemma_sorted_identity(d);
        if d.len() > 0 {
            assert(d.last().offset <= s.last().offset) by {
                assert(d.last() == s[s.len() - 2]);
            }
        }
        assert(d.push(s.last()) =~= s);
    }
}

/// Decoding an encoded poll response gives back its messages.
pub proof fn lemma_messages_round_trip(s: Seq<MessageView>)
    requires
        encodable(s),
    ensures
        messages_spec(response_bytes(s)) == Ok::<Seq<MessageView>, IggyError>(s),
{
    let pre = u32_bytes(s.len() as u32);
    assert forall|i: int| 0 <= i < s.len() implies (#[trigger] s[i]).length == s[i].payload.len()
        && s[i].payload.len() <= u32::MAX by {
        assert(s[i].length == s[i].payload.len());
    }
    lemma_decode_body(pre, s);
    lemma_sorted_identity(s);
}

/// The offset of the newest message that a log holds; zero when it holds none.
pub open spec fn recovered_offset(log: Seq<u8>) -> Result<u64, IggyError> {
    match messages_spec(log) {
        Ok(s) => Ok(
            if s.len() == 0 {
                0
            } else {
                s.last().offset
            },
        ),
        Err(e) => Err(e),
    }
}

/// Reads back the offset of the newest message of a log written by
/// `log_bytes`; a truncated last message is not counted.
pub fn recover_current_offset(log: &[u8]) -> (r: Result<u64, IggyError>)
    ensures
        r == recovered_offset(log@),
{
    match crate::mapper::map_messages(log) {
        Ok(messages) => {
            if messages.len() == 0 {
                Ok(0)
            } else {
                let last = messages.len() - 1;
                assert(views(messages@).last() == messages@[last as int]@);
                Ok(messages[last].offset)
            }
        },
        Err(e) => Err(e),
    }
}

impl PartitionLog {
    /// The partition's messages as they are written to its log.
    pub fn log_bytes(&self) -> (r: Vec<u8>)
        requires
            self.wf(),
            self.current() <= u32::MAX,
        ensures
            r@ == response_bytes(self.msgs()),
    {
        assert(views(self.messages@) =~= self.msgs());
        assert forall|i: int| 0 <= i < self.messages@.len() implies (#[trigger] self.messages@[i]).payload@.len()
            <= u32::MAX by {
            assert(self.messages@[i].length == self.messages@[i].payload@.len());
        }
        encode_messages(&self.messages)
    }
}

/// Reading back the log of a partition recovers its current offset.
pub proof fn lemma_recover_current_offset(p: PartitionLog)
    requires
        p.wf(),
        p.current() <= u32::MAX,
    ensures
        recovered_offset(response_bytes(p.msgs())) == Ok::<u64, IggyError>(p.current() as u64),
{
    let s = p.msgs();
    assert forall|i: int| 0 <= i < s.len() implies (#[trigger] s[i]).length == s[i].payload.len() by {
        assert(p.messages@[i].length == p.messages@[i].payload@.len());
    }
    assert forall|i: int, j: int| 0 <= i < j < s.len() implies (#[trigger] s[i]).offset <= (#[trigger] s[j]).offset by {
        assert(p.messages@[i].offset == i + 1);
        assert(p.messages@[j].offset == j + 1);
    }
    lemma_messages_round_trip(s);
    if s.len() > 0 {
        assert(p.messages@[s.len() - 1].offset == s.len());
    }
}

/// The messages of segment `k`, by index into the partition's messages.
pub open spec fn segment_messages(p: PartitionLog, k: int) -> Seq<MessageView> {
    p.msgs().subrange(p.segments@[k].start_offset - 1, p.segments@[k].end_offset - 1)
}

impl PartitionLog {
    /// The bytes of segment `k`'s log: its messages, one after another.
    pub fn segment_log_bytes(&self, k: usize) -> (r: Vec<u8>)
        requires
            self.wf(),
            k < self.segments@.len(),
        ensures
            r@ == messages_body(segment_messages(*self, k as int)),
    {
        proof {
            lemma_segment_facts(*self, k as int);
        }
        let _n = self.messages.len();
        let from = (self.segments[k].start_offset - 1) as usize;
        let to = (self.segments[k].end_offset - 1) as usize;
        let mut out: Vec<u8> = Vec::new();
        write_body(&mut out, &self.messages, from, to);
        out
    }
}

proof fn lemma_segment_facts(p: PartitionLog, k: int)
    requires
        p.wf(),
        0 <= k < p.segments@.len(),
    ensures
        1 <= p.segments@[k].start_offset <= p.segments@[k].end_offset <= p.messages@.len() + 1,
        views(p.messages@) == p.msgs(),
        forall|i: int| 0 <= i < p.messages@.len() ==> (#[trigger] p.messages@[i]).payload@.len() <= u32::MAX,
{
    assert(views(p.messages@) =~= p.msgs());
    assert forall|i: int| 0 <= i < p.messages@.len() implies (#[trigger] p.messages@[i]).payload@.len()
        <= u32::MAX by {
        assert(p.messages@[i].length == p.messages@[i].payload@.len());
    }
}

/// The log of a nonempty segment starts with the segment's start offset, so
/// sampling its layout accepts it; after a rollover that offset is the one
/// after the partition's previous current offset (see `append`).
pub proof fn lemma_segment_sample_accepted(
    p: PartitionLog,
    k: int,
    log_file_size: u64,
    schema: BinarySchema,
    short: ServerCompatError,
    mismatch: ServerCompatError,
)
    requires
        p.wf(),
        0 <= k < p.segments@.len(),
        p.segments@[k].start_offset < p.segments@[k].end_offset,
    ensures
        sample_outcome(
            log_file_size,
            messages_body(segment_messages(p, k)),
            p.segments@[k].start_offset,
            schema,
            short,
            mismatch,
        ) == Ok::<BinarySchema, ServerCompatError>(schema),
{
    let sub = segment_messages(p, k);
    let start = p.segments@[k].start_offset as int;
    assert(sub[0] == p.msgs()[start - 1]);
    assert(p.messages@[start - 1].offset == start);
    lemma_body_front(sub);
    let m = sub[0];
    let body = messages_body(sub);
    lemma_message_bytes_parts(m);
    assert(body.subrange(0, 8) =~= message_bytes_of(m).subrange(0, 8));
    lemma_u64_at(body, 0, m.offset);
    assert(u64_le(body, 0) == start);
}

} // verus!
