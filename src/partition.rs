//! A partition: one offset-ordered sequence of messages laid out in segments
//! of bounded size, with the offsets that consumers have stored on it.
use vstd::prelude::*;
use crate::config::MAX_SEGMENT_SIZE;
use crate::mapper::copy_range;
use crate::models::{Message, MessageView, Offset};

verus! {

/// Bytes that a message takes in a segment: its 36-byte head and its payload.
pub open spec fn message_bytes(payload_len: nat) -> nat {
    36 + payload_len
}

/// A message handed to `append`, before it has an offset.
pub struct NewMessage {
    pub timestamp: u64,
    pub id: u128,
    pub payload: Vec<u8>,
}

/// The bytes that the messages of `b` take together.
pub open spec fn batch_bytes(b: Seq<NewMessage>) -> nat
    decreases b.len(),
{
    if b.len() == 0 {
        0
    } else {
        batch_bytes(b.drop_last()) + message_bytes(b.last().payload@.len())
    }
}

/// The message that `m` becomes at `offset`.
pub open spec fn stored_message(m: NewMessage, offset: int) -> MessageView {
    MessageView {
        offset: offset as u64,
        timestamp: m.timestamp,
        id: m.id,
        length: m.payload@.len() as u32,
        payload: m.payload@,
    }
}

/// The messages that `b` becomes when its first message gets offset `base`.
pub open spec fn stored_batch(b: Seq<NewMessage>, base: int) -> Seq<MessageView> {
    Seq::new(b.len(), |i: int| stored_message(b[i], base + i))
}

/// A contiguous run of offsets, `start_offset` up to but not including
/// `end_offset`, and the bytes its messages take.
#[derive(Debug, Clone, Copy, PartialEq, Eq, Structural)]
pub struct Segment {
    pub start_offset: u64,
    pub end_offset: u64,
    pub size_bytes: u64,
    pub is_closed: bool,
}

/// Where a poll starts.
#[derive(Debug, Clone, Copy, PartialEq, Eq, Structural)]
pub enum PollingStrategy {
    /// From this offset on.
    Offset(u64),
    /// From the first message, in offset order, stamped at or after this
    /// time in microseconds.
    Timestamp(u64),
    /// From the earliest message.
    First,
    /// The newest messages.
    Last,
    /// After the offset that this consumer stored; the poll stores the last
    /// offset it returns.
    Next(u32),
}

#[derive(Debug, Clone, Copy, PartialEq, Eq, Structural)]
pub enum PartitionError {
    InvalidMessagesCount,
    SegmentFull,
    InvalidOffset,
}

/// The offset that consumer `c` stored, if any: the first entry for it.
pub open spec fn stored_offset(s: Seq<Offset>, c: u32) -> Option<u64>
    decreases s.len(),
{
    if s.len() == 0 {
        None
    } else if s[0].consumer_id == c {
        Some(s[0].offset)
    } else {
        stored_offset(s.drop_first(), c)
    }
}

proof fn lemma_stored_offset_in(s: Seq<Offset>, c: u32)
    ensures
        stored_offset(s, c) matches Some(o) ==> exists|j: int|
            0 <= j < s.len() && s[j].consumer_id == c && #[trigger] s[j].offset == o,
    decreases s.len(),
{
    if s.len() > 0 && s[0].consumer_id != c {
        lemma_stored_offset_in(s.drop_first(), c);
        if let Some(o) = stored_offset(s, c) {
            let j = choose|j: int|
                0 <= j < s.drop_first().len() && s.drop_first()[j].consumer_id == c
                    && #[trigger] s.drop_first()[j].offset == o;
            assert(s[j + 1].offset == o);
        }
    }
}

proof fn lemma_stored_offset_update(s: Seq<Offset>, j: int, x: Offset, c: u32)
    requires
        0 <= j < s.len(),
        s[j].consumer_id == x.consumer_id,
        forall|k: int| 0 <= k < j ==> (#[trigger] s[k]).consumer_id != x.consumer_id,
    ensures
        stored_offset(s.update(j, x), c) == if c == x.consumer_id {
            Some(x.offset)
        } else {
            stored_offset(s, c)
        },
    decreases j,
{
    if j == 0 {
        assert(s.update(j, x).drop_first() =~= s.drop_first());
    } else {
        assert(s.update(j, x).drop_first() =~= s.drop_first().update(j - 1, x));
        assert(s[0].consumer_id != x.consumer_id);
        lemma_stored_offset_update(s.drop_first(), j - 1, x, c);
    }
}

proof fn lemma_stored_offset_push(s: Seq<Offset>, x: Offset, c: u32)
    requires
        forall|k: int| 0 <= k < s.len() ==> (#[trigger] s[k]).consumer_id != x.consumer_id,
    ensures
        stored_offset(s.push(x), c) == if c == x.consumer_id {
            Some(x.offset)
        } else {
            stored_offset(s, c)
        },
    decreases s.len(),
{
    if s.len() == 0 {
        assert(s.push(x).drop_first() =~= s);
    } else {
        assert(s.push(x).drop_first() =~= s.drop_first().push(x));
        lemma_stored_offset_push(s.drop_first(), x, c);
    }
}

/// The index of the first message from index `i` on stamped at or after
/// `ts`; the length when there is none.
pub open spec fn first_at_or_after(s: Seq<MessageView>, ts: u64, i: int) -> int
    decreases s.len() - i,
{
    if i >= s.len() {
        s.len() as int
    } else if s[i].timestamp >= ts {
        i
    } else {
        first_at_or_after(s, ts, i + 1)
    }
}

pub open spec fn min(a: int, b: int) -> int {
    if a < b {
        a
    } else {
        b
    }
}

/// The partition.
pub struct PartitionLog {
    /// The largest size of a segment in bytes.
    pub segment_size: u64,
    pub segments: Vec<Segment>,
    /// Every message, the one at index `i` with offset `i + 1`.
    pub messages: Vec<Message>,
    pub consumer_offsets: Vec<Offset>,
}

impl PartitionLog {
    pub open spec fn msgs(&self) -> Seq<MessageView> {
        self.messages@.map_values(|m: Message| m@)
    }

    /// The offset of the newest message; zero while there is none.
    pub open spec fn current(&self) -> nat {
        self.messages@.len()
    }

    pub open spec fn active(&self) -> Segment {
        self.segments@.last()
    }

    pub open spec fn wf(&self) -> bool {
        &&& self.segment_size <= MAX_SEGMENT_SIZE
        &&& self.messages@.len() < u64::MAX
        &&& forall|i: int| 0 <= i < self.messages@.len() ==> (#[trigger] self.messages@[i]).offset == i + 1
            && self.messages@[i].length == self.messages@[i].payload@.len()
        &&& self.segments@.len() >= 1
        &&& self.segments@[0].start_offset == 1
        &&& forall|k: int| 0 <= k < self.segments@.len() - 1 ==> (#[trigger] self.segments@[k + 1]).start_offset
            == self.segments@[k].end_offset
        &&& forall|k: int| 0 <= k < self.segments@.len() ==> (#[trigger] self.segments@[k]).start_offset
            <= self.segments@[k].end_offset && self.segments@[k].size_bytes <= self.segment_size
            && 1 <= self.segments@[k].start_offset && self.segments@[k].end_offset <= self.messages@.len() + 1
        &&& forall|k: int| 0 <= k < self.segments@.len() - 1 ==> (#[trigger] self.segments@[k]).is_closed
        &&& !self.active().is_closed
        &&& self.active().end_offset == self.messages@.len() + 1
        &&& forall|j: int| 0 <= j < self.consumer_offsets@.len() ==> (#[trigger] self.consumer_offsets@[j]).offset
            <= self.messages@.len()
        &&& forall|j: int, k: int| 0 <= j < k < self.consumer_offsets@.len() ==> (#[trigger] self.consumer_offsets@[j]).consumer_id
            != (#[trigger] self.consumer_offsets@[k]).consumer_id
    }

    /// The index of the first message that a poll returns, and the index
    /// after its last.
    pub open spec fn poll_range(&self, strategy: PollingStrategy, count: u32) -> (int, int) {
        let len = self.messages@.len() as int;
        let start = match strategy {
            PollingStrategy::Offset(o) => if o == 0 {
                0
            } else {
                min(o - 1, len)
            },
            PollingStrategy::Timestamp(ts) => first_at_or_after(self.msgs(), ts, 0),
            PollingStrategy::First => 0,
            PollingStrategy::Last => len - min(count as int, len),
            PollingStrategy::Next(c) => match stored_offset(self.consumer_offsets@, c) {
                Some(o) => o as int,
                None => 0,
            },
        };
        (start, min(start + count, len))
    }

    /// An empty partition with one open segment that starts at offset 1.
    pub fn new(segment_size: u64) -> (r: PartitionLog)
        requires
            segment_size <= MAX_SEGMENT_SIZE,
        ensures
            r.wf(),
            r.segment_size == segment_size,
            r.current() == 0,
            r.segments@.len() == 1,
            r.consumer_offsets@.len() == 0,
    {
        let mut segments: Vec<Segment> = Vec::new();
        segments.push(Segment { start_offset: 1, end_offset: 1, size_bytes: 0, is_closed: false });
        PartitionLog {
            segment_size,
            segments,
            messages: Vec::new(),
            consumer_offsets: Vec::new(),
        }
    }

    pub fn current_offset(&self) -> (r: u64)
        requires
            self.wf(),
        ensures
            r == self.current(),
    {
        self.messages.len() as u64
    }

    pub fn segments_count(&self) -> (r: usize)
        ensures
            r == self.segments@.len(),
    {
        self.segments.len()
    }

    /// The bytes that `batch` takes, or `None` when that exceeds `limit`.
    fn batch_size_within(batch: &Vec<NewMessage>, limit: u64) -> (r: Option<u64>)
        requires
            limit <= MAX_SEGMENT_SIZE,
        ensures
            r matches Some(n) ==> n == batch_bytes(batch@) && n <= limit,
            r is None ==> batch_bytes(batch@) > limit,
    {
        let mut total: u64 = 0;
        let mut i: usize = 0;
        while i < batch.len()
            invariant
                i <= batch@.len(),
                total == batch_bytes(batch@.subrange(0, i as int)),
                total <= limit,
                limit <= MAX_SEGMENT_SIZE,
            decreases batch@.len() - i,
        {
            let len = batch[i].payload.len() as u64;
            assert(batch@.subrange(0, i + 1).drop_last() =~= batch@.subrange(0, i as int));
            assert(batch@.subrange(0, i + 1).last() == batch@[i as int]);
            assert(batch_bytes(batch@.subrange(0, i + 1)) == total + 36 + len);
            if len > limit || 36 + len > limit - total {
                proof {
                    Self::lemma_batch_bytes_prefix(batch@, i + 1);
                    assert(batch_bytes(batch@) >= total + 36 + len);
                    assert(total + 36 + len > limit);
                }
                return None;
            }
            total = total + 36 + len;
            i = i + 1;
        }
        assert(batch@.subrange(0, i as int) =~= batch@);
        Some(total)
    }

    proof fn lemma_batch_bytes_prefix(b: Seq<NewMessage>, k: int)
        requires
            0 <= k <= b.len(),
        ensures
            batch_bytes(b.subrange(0, k)) <= batch_bytes(b),
        decreases b.len() - k,
    {
        if k < b.len() {
            Self::lemma_batch_bytes_prefix(b, k + 1);
            assert(b.subrange(0, k + 1).drop_last() =~= b.subrange(0, k));
        } else {
            assert(b.subrange(0, k) =~= b);
        }
    }

    proof fn lemma_batch_bytes_each(b: Seq<NewMessage>, i: int)
        requires
            0 <= i < b.len(),
        ensures
            message_bytes(b[i].payload@.len()) <= batch_bytes(b),
        decreases b.len(),
    {
        if i < b.len() - 1 {
            Self::lemma_batch_bytes_each(b.drop_last(), i);
        }
    }

    /// Appends `batch` with offsets from `current + 1` on. When the active
    /// segment cannot take the batch, it is sealed and a new segment that
    /// starts at `current + 1` takes it.
    pub fn append(&mut self, batch: &Vec<NewMessage>) -> (r: Result<(u64, u64), PartitionError>)
        requires
            old(self).wf(),
            old(self).current() + batch@.len() < u64::MAX,
        ensures
            final(self).wf(),
            final(self).segment_size == old(self).segment_size,
            final(self).consumer_offsets@ == old(self).consumer_offsets@,
            batch@.len() == 0 ==> r == Err::<(u64, u64), PartitionError>(
                PartitionError::InvalidMessagesCount,
            ),
            batch@.len() > 0 && batch_bytes(batch@) > old(self).segment_size ==> r == Err::<
                (u64, u64),
                PartitionError,
            >(PartitionError::SegmentFull),
            r is Err ==> final(self).msgs() == old(self).msgs() && final(self).segments@
                == old(self).segments@,
            batch@.len() > 0 && batch_bytes(batch@) <= old(self).segment_size ==> {
                &&& r == Ok::<(u64, u64), PartitionError>(
                    ((old(self).current() + 1) as u64, (old(self).current() + batch@.len()) as u64),
                )
                &&& final(self).msgs() == old(self).msgs() + stored_batch(
                    batch@,
                    old(self).current() + 1 as int,
                )
                &&& final(self).segments@ == if old(self).active().size_bytes + batch_bytes(batch@)
                    > old(self).segment_size {
                    old(self).segments@.update(
                        old(self).segments@.len() - 1,
                        Segment { is_closed: true, ..old(self).active() },
                    ).push(
                        Segment {
                            start_offset: (old(self).current() + 1) as u64,
                            end_offset: (old(self).current() + 1 + batch@.len()) as u64,
                            size_bytes: batch_bytes(batch@) as u64,
                            is_closed: false,
                        },
                    )
                } else {
                    old(self).segments@.update(
                        old(self).segments@.len() - 1,
                        Segment {
                            end_offset: (old(self).active().end_offset + batch@.len()) as u64,
                            size_bytes: (old(self).active().size_bytes + batch_bytes(batch@)) as u64,
                            ..old(self).active()
                        },
                    )
                }
            },
    {
        if batch.len() == 0 {
            return Err(PartitionError::InvalidMessagesCount);
        }
        let size = match Self::batch_size_within(batch, self.segment_size) {
            Some(n) => n,
            None => {
                return Err(PartitionError::SegmentFull);
            },
        };
        let current = self.messages.len() as u64;
        let last = self.segments.len() - 1;
        if self.segments[last].size_bytes > self.segment_size - size {
            let mut sealed = self.segments[last];
            sealed.is_closed = true;
            self.segments.set(last, sealed);
            self.segments.push(
                Segment {
                    start_offset: current + 1,
                    end_offset: current + 1,
                    size_bytes: 0,
                    is_closed: false,
                },
            );
        }
        let ghost before = self.msgs();
        let ghost segs = self.segments@;
        let mut i: usize = 0;
        while i < batch.len()
            invariant
                i <= batch@.len(),
                current == old(self).current(),
                current + batch@.len() < u64::MAX,
                self.segments@ == segs,
                self.segment_size == old(self).segment_size,
                self.consumer_offsets@ == old(self).consumer_offsets@,
                self.messages@.len() == current + i,
                before == old(self).msgs(),
                self.msgs() == before + stored_batch(batch@.subrange(0, i as int), current + 1 as int),
                forall|j: int| 0 <= j < self.messages@.len() ==> (#[trigger] self.messages@[j]).offset == j + 1
                    && self.messages@[j].length == self.messages@[j].payload@.len(),
                batch_bytes(batch@) <= MAX_SEGMENT_SIZE,
            decreases batch@.len() - i,
        {
            let m = &batch[i];
            proof {
                Self::lemma_batch_bytes_each(batch@, i as int);
            }
            let payload = copy_range(m.payload.as_slice(), 0, m.payload.len());
            assert(m.payload@.subrange(0, m.payload@.len() as int) =~= m.payload@);
            let message = Message {
                offset: current + 1 + i as u64,
                timestamp: m.timestamp,
                id: m.id,
                length: m.payload.len() as u32,
                payload,
            };
            let ghost prev = self.messages@;
            let ghost prev_msgs = self.msgs();
            self.messages.push(message);
            assert(message@ == stored_message(batch@[i as int], current + 1 + i));
            assert(stored_batch(batch@.subrange(0, i + 1), current + 1 as int) =~= stored_batch(
                batch@.subrange(0, i as int),
                current + 1 as int,
            ).push(stored_message(batch@[i as int], current + 1 + i)));
            assert(self.msgs() =~= prev_msgs.push(message@));
            i = i + 1;
        }
        assert(batch@.subrange(0, i as int) =~= batch@);
        let last = self.segments.len() - 1;
        let mut active = self.segments[last];
        active.end_offset = active.end_offset + batch.len() as u64;
        active.size_bytes = active.size_bytes + size;
        self.segments.set(last, active);
        assert(self.segments@.len() >= 1);
        Ok((current + 1, current + batch.len() as u64))
    }

    /// Finds the offset that `consumer_id` stored.
    pub fn get_consumer_offset(&self, consumer_id: u32) -> (r: Option<u64>)
        ensures
            r == stored_offset(self.consumer_offsets@, consumer_id),
    {
        match self.find_consumer(consumer_id) {
            Some(j) => Some(self.consumer_offsets[j].offset),
            None => None,
        }
    }

    fn find_consumer(&self, consumer_id: u32) -> (r: Option<usize>)
        ensures
            r matches Some(j) ==> j < self.consumer_offsets@.len() && self.consumer_offsets@[j as int].consumer_id
                == consumer_id && stored_offset(self.consumer_offsets@, consumer_id) == Some(
                self.consumer_offsets@[j as int].offset,
            ) && forall|k: int| 0 <= k < j ==> (#[trigger] self.consumer_offsets@[k]).consumer_id
                != consumer_id,
            r is None ==> stored_offset(self.consumer_offsets@, consumer_id) is None && forall|k: int|
                0 <= k < self.consumer_offsets@.len() ==> (#[trigger] self.consumer_offsets@[k]).consumer_id
                    != consumer_id,
    {
        let ghost s = self.consumer_offsets@;
        let mut i: usize = 0;
        assert(s.subrange(0, s.len() as int) =~= s);
        while i < self.consumer_offsets.len()
            invariant
                s == self.consumer_offsets@,
                i <= s.len(),
                stored_offset(s, consumer_id) == stored_offset(s.subrange(i as int, s.len() as int), consumer_id),
                forall|k: int| 0 <= k < i ==> (#[trigger] s[k]).consumer_id != consumer_id,
            decreases s.len() - i,
        {
            let ghost rest = s.subrange(i as int, s.len() as int);
            if self.consumer_offsets[i].consumer_id == consumer_id {
                assert(rest[0] == s[i as int]);
                return Some(i);
            }
            assert(rest.drop_first() =~= s.subrange(i + 1, s.len() as int));
            i = i + 1;
        }
        assert(s.subrange(i as int, s.len() as int) =~= Seq::<Offset>::empty());
        None
    }

    /// Stores `offset` for `consumer_id`; an offset past the newest message
    /// is refused.
    pub fn store_consumer_offset(&mut self, consumer_id: u32, offset: u64) -> (r: Result<(), PartitionError>)
        requires
            old(self).wf(),
        ensures
            final(self).wf(),
            final(self).messages@ == old(self).messages@,
            final(self).segments@ == old(self).segments@,
            final(self).segment_size == old(self).segment_size,
            offset > old(self).current() ==> r == Err::<(), PartitionError>(PartitionError::InvalidOffset)
                && final(self).consumer_offsets@ == old(self).consumer_offsets@,
            offset <= old(self).current() ==> r is Ok && forall|c: u32| #[trigger] stored_offset(final(self).consumer_offsets@, c)
                == if c == consumer_id {
                Some(offset)
            } else {
                stored_offset(old(self).consumer_offsets@, c)
            },
    {
        if offset > self.messages.len() as u64 {
            return Err(PartitionError::InvalidOffset);
        }
        let entry = Offset { consumer_id, offset };
        let ghost s = self.consumer_offsets@;
        match self.find_consumer(consumer_id) {
            Some(j) => {
                self.consumer_offsets.set(j, entry);
                assert forall|c: u32| #[trigger] stored_offset(self.consumer_offsets@, c) == if c == consumer_id {
                    Some(offset)
                } else {
                    stored_offset(s, c)
                } by {
                    lemma_stored_offset_update(s, j as int, entry, c);
                }
                assert forall|a: int, b: int| 0 <= a < b < self.consumer_offsets@.len() implies (#[trigger] self.consumer_offsets@[a]).consumer_id
                    != (#[trigger] self.consumer_offsets@[b]).consumer_id by {
                    assert(s[a].consumer_id != s[b].consumer_id);
                }
            },
            None => {
                self.consumer_offsets.push(entry);
                assert forall|c: u32| #[trigger] stored_offset(self.consumer_offsets@, c) == if c == consumer_id {
                    Some(offset)
                } else {
                    stored_offset(s, c)
                } by {
                    lemma_stored_offset_push(s, entry, c);
                }
                assert forall|a: int, b: int| 0 <= a < b < self.consumer_offsets@.len() implies (#[trigger] self.consumer_offsets@[a]).consumer_id
                    != (#[trigger] self.consumer_offsets@[b]).consumer_id by {
                    if b < s.len() {
                        assert(s[a].consumer_id != s[b].consumer_id);
                    } else {
                        assert(s[a].consumer_id != consumer_id);
                    }
                }
            },
        }
        Ok(())
    }
}

impl PartitionLog {
    fn first_stamped_from(&self, ts: u64) -> (r: usize)
        ensures
            r == first_at_or_after(self.msgs(), ts, 0),
            r <= self.messages@.len(),
    {
        let ghost s = self.msgs();
        let mut i: usize = 0;
        while i < self.messages.len()
            invariant
                s == self.msgs(),
                i <= self.messages@.len(),
                first_at_or_after(s, ts, 0) == first_at_or_after(s, ts, i as int),
            decreases self.messages@.len() - i,
        {
            if self.messages[i].timestamp >= ts {
                assert(s[i as int].timestamp == self.messages@[i as int].timestamp);
                return i;
            }
            assert(s[i as int].timestamp == self.messages@[i as int].timestamp);
            i = i + 1;
        }
        i
    }
}

fn clone_message(m: &Message) -> (r: Message)
    ensures
        r@ == m@,
{
    let payload = copy_range(m.payload.as_slice(), 0, m.payload.len());
    assert(m.payload@.subrange(0, m.payload@.len() as int) =~= m.payload@);
    Message {
        offset: m.offset,
        timestamp: m.timestamp,
        id: m.id,
        length: m.length,
        payload,
    }
}

impl PartitionLog {
    /// Returns up to `count` messages in offset order from where `strategy`
    /// says. A `Next` poll that returns messages stores the last offset it
    /// returned for its consumer.
    pub fn poll(&mut self, strategy: PollingStrategy, count: u32) -> (r: Vec<Message>)
        requires
            old(self).wf(),
        ensures
            final(self).wf(),
            final(self).messages@ == old(self).messages@,
            final(self).segments@ == old(self).segments@,
            final(self).segment_size == old(self).segment_size,
            ({
                let (start, end) = old(self).poll_range(strategy, count);
                &&& 0 <= start <= end <= old(self).current()
                &&& r@.map_values(|m: Message| m@) == old(self).msgs().subrange(start, end)
                &&& forall|i: int| 0 <= i < r@.len() ==> (#[trigger] r@[i]).offset == start + 1 + i
                &&& match strategy {
                    PollingStrategy::Next(c) => if end > start {
                        forall|k: u32| #[trigger] stored_offset(final(self).consumer_offsets@, k)
                            == if k == c {
                            Some(end as u64)
                        } else {
                            stored_offset(old(self).consumer_offsets@, k)
                        }
                    } else {
                        final(self).consumer_offsets@ == old(self).consumer_offsets@
                    },
                    _ => final(self).consumer_offsets@ == old(self).consumer_offsets@,
                }
            }),
    {
        let len = self.messages.len();
        let start: usize = match strategy {
            PollingStrategy::Offset(o) => if o == 0 {
                0
            } else if o - 1 > len as u64 {
                len
            } else {
                (o - 1) as usize
            },
            PollingStrategy::Timestamp(ts) => self.first_stamped_from(ts),
            PollingStrategy::First => 0,
            PollingStrategy::Last => if count as usize > len {
                0
            } else {
                len - count as usize
            },
            PollingStrategy::Next(c) => match self.get_consumer_offset(c) {
                Some(o) => {
                    proof {
                        lemma_stored_offset_in(self.consumer_offsets@, c);
                    }
                    o as usize
                },
                None => 0,
            },
        };
        let end: usize = if count as usize > len - start {
            len
        } else {
            start + count as usize
        };
        assert((start as int, end as int) == self.poll_range(strategy, count));
        let mut r: Vec<Message> = Vec::new();
        let mut i = start;
        while i < end
            invariant
                start <= i <= end <= len == self.messages@.len(),
                r@.map_values(|m: Message| m@) == self.msgs().subrange(start as int, i as int),
                forall|j: int| 0 <= j < r@.len() ==> (#[trigger] r@[j]).offset == start + 1 + j,
                forall|j: int| 0 <= j < self.messages@.len() ==> (#[trigger] self.messages@[j]).offset == j + 1,
            decreases end - i,
        {
            let m = clone_message(&self.messages[i]);
            let ghost prev = r@;
            r.push(m);
            assert(r@.map_values(|m: Message| m@) =~= self.msgs().subrange(start as int, i + 1)) by {
                assert(prev.push(m).map_values(|m: Message| m@) =~= prev.map_values(|m: Message| m@).push(m@));
            }
            i = i + 1;
        }
        if let PollingStrategy::Next(c) = strategy {
            if end > start {
                let _stored = self.store_consumer_offset(c, end as u64);
            }
        }
        r
    }
}

/// Every message of a partition has offset one more than the message before
/// it, starting at 1, so whatever a poll returns is gapless and increasing.
pub proof fn lemma_offsets_dense(p: PartitionLog, i: int)
    requires
        p.wf(),
        0 <= i < p.current(),
    ensures
        p.msgs()[i].offset == i + 1,
        i > 0 ==> p.msgs()[i].offset == p.msgs()[i - 1].offset + 1,
{
}

/// A consumer's `Next` poll starts right after the last offset that its
/// previous `Next` poll returned, as long as no other offset was stored.
pub proof fn lemma_next_poll_resumes(p: PartitionLog, q: PartitionLog, c: u32, n: u32, m: u32)
    requires
        p.wf(),
        q.wf(),
        p.poll_range(PollingStrategy::Next(c), n).0 < p.poll_range(PollingStrategy::Next(c), n).1,
        stored_offset(q.consumer_offsets@, c) == Some(
            p.poll_range(PollingStrategy::Next(c), n).1 as u64,
        ),
    ensures
        q.poll_range(PollingStrategy::Next(c), m).0 == p.poll_range(PollingStrategy::Next(c), n).1,
{
    lemma_stored_offset_in(p.consumer_offsets@, c);
}

/// Every offset that a consumer stored lies within the partition.
pub proof fn lemma_consumer_offset_bounded(p: PartitionLog, c: u32)
    requires
        p.wf(),
    ensures
        stored_offset(p.consumer_offsets@, c) matches Some(o) ==> o <= p.current(),
{
    lemma_stored_offset_in(p.consumer_offsets@, c);
}

/// Polling from an offset past the newest message returns nothing.
pub proof fn lemma_poll_past_end(p: PartitionLog, o: u64, count: u32)
    requires
        p.wf(),
        o > p.current(),
    ensures
        p.poll_range(PollingStrategy::Offset(o), count).0 == p.poll_range(
            PollingStrategy::Offset(o),
            count,
        ).1,
{
}

/// A nonempty batch takes at least one message head.
proof fn lemma_batch_bytes_nonempty(b: Seq<NewMessage>)
    requires
        b.len() > 0,
    ensures
        batch_bytes(b) >= 36,
{
}

/// When the active segment is one byte short of full, any nonempty batch
/// rolls it over (see `append`): the new segment starts right after the
/// current offset.
pub proof fn lemma_rollover_when_nearly_full(p: PartitionLog, b: Seq<NewMessage>)
    requires
        p.wf(),
        p.active().size_bytes + 1 == p.segment_size,
        b.len() > 0,
    ensures
        p.active().size_bytes + batch_bytes(b) > p.segment_size,
{
    lemma_batch_bytes_nonempty(b);
}

} // verus!
