//! The command that removes the highest-numbered partitions of a topic.
use vstd::prelude::*;
use crate::codec::{u32_bytes, u32_le, read_u32_le, write_u32_le, lemma_u32_round_trip, lemma_u32_bytes_of_le};
use crate::error::IggyError;
use crate::text::{decimal, parse_u32, split_on, push_decimal, parse_u32_in, lemma_parse_decimal,
    lemma_split_on_append_field, lemma_split_on_push_sep, lemma_split_on_len_grows, lemma_decimal_digits, is_digit};

verus! {

/// Removes `partitions_count` partitions from topic `topic_id` of stream `stream_id`.
#[derive(Debug, Clone, Copy, PartialEq, Eq, Structural)]
pub struct DeletePartitions {
    pub stream_id: u32,
    pub topic_id: u32,
    pub partitions_count: u32,
}

/// The partition count that a command read from a document without one gets.
pub fn default_partitions_count() -> (r: u32)
    ensures
        r == 0,
{
    0
}

impl Default for DeletePartitions {
    fn default() -> (r: Self)
        ensures
            r == (DeletePartitions { stream_id: 1, topic_id: 1, partitions_count: 1 }),
    {
        DeletePartitions { stream_id: 1, topic_id: 1, partitions_count: 1 }
    }
}

/// The outcome of validating `c`: the first identifier that is zero, if any.
pub open spec fn checked(c: DeletePartitions) -> Result<DeletePartitions, IggyError> {
    if c.stream_id == 0 {
        Err(IggyError::InvalidStreamId)
    } else if c.topic_id == 0 {
        Err(IggyError::InvalidTopicId)
    } else {
        Ok(c)
    }
}

/// The twelve bytes of a command: stream id, topic id, partition count.
pub open spec fn bytes_of(c: DeletePartitions) -> Seq<u8> {
    u32_bytes(c.stream_id) + u32_bytes(c.topic_id) + u32_bytes(c.partitions_count)
}

/// The command that `b` holds, validated.
pub open spec fn from_bytes_spec(b: Seq<u8>) -> Result<DeletePartitions, IggyError> {
    if b.len() != 12 {
        Err(IggyError::InvalidCommand)
    } else {
        checked(
            DeletePartitions {
                stream_id: u32_le(b, 0) as u32,
                topic_id: u32_le(b, 4) as u32,
                partitions_count: u32_le(b, 8) as u32,
            },
        )
    }
}

/// The text of a command: the three numbers in decimal, separated by `|`.
pub open spec fn text_of(c: DeletePartitions) -> Seq<char> {
    decimal(c.stream_id as nat) + seq!['|'] + decimal(c.topic_id as nat) + seq!['|'] + decimal(
        c.partitions_count as nat,
    )
}

/// The command that the text `s` holds, validated.
pub open spec fn from_text_spec(s: Seq<char>) -> Result<DeletePartitions, IggyError> {
    let parts = split_on(s, '|');
    if parts.len() != 3 {
        Err(IggyError::InvalidCommand)
    } else {
        match (parse_u32(parts[0]), parse_u32(parts[1]), parse_u32(parts[2])) {
            (Some(s), Some(t), Some(p)) => checked(
                DeletePartitions { stream_id: s, topic_id: t, partitions_count: p },
            ),
            _ => Err(IggyError::InvalidNumberValue),
        }
    }
}

/// Finds the two separators of text made of exactly three `|`-separated fields.
fn split_three(s: &str) -> (r: Option<(usize, usize)>)
    ensures
        r is None <==> split_on(s@, '|').len() != 3,
        r matches Some((a, b)) ==> a < b < s@.len() && split_on(s@, '|') == seq![
            s@.subrange(0, a as int),
            s@.subrange(a + 1, b as int),
            s@.subrange(b + 1, s@.len() as int),
        ],
{
    let n = s.unicode_len();
    let mut count: usize = 0;
    let mut a: usize = 0;
    let mut b: usize = 0;
    let mut cur: usize = 0;
    let mut i: usize = 0;
    assert(s@.subrange(0, 0) =~= Seq::<char>::empty());
    while i < n
        invariant
            n == s@.len(),
            i <= n,
            count <= 2,
            cur <= i,
            split_on(s@.subrange(0, i as int), '|').len() == count + 1,
            split_on(s@.subrange(0, i as int), '|').last() == s@.subrange(cur as int, i as int),
            count == 0 ==> cur == 0,
            count >= 1 ==> split_on(s@.subrange(0, i as int), '|')[0] == s@.subrange(0, a as int)
                && a < cur,
            count == 1 ==> cur == a + 1,
            count == 2 ==> split_on(s@.subrange(0, i as int), '|')[1] == s@.subrange(
                a + 1,
                b as int,
            ) && cur == b + 1 && a < b,
        decreases n - i,
    {
        let c = s.get_char(i);
        let ghost before = s@.subrange(0, i as int);
        let ghost after = s@.subrange(0, i + 1);
        assert(after.drop_last() =~= before);
        assert(after.last() == c);
        if c == '|' {
            if count == 2 {
                assert(split_on(after, '|').len() == 4);
                let ghost rest = s@.subrange(i + 1, n as int);
                proof {
                    assert(s@ =~= after + rest);
                    lemma_split_on_len_grows(after, rest, '|');
                }
                return None;
            }
            if count == 0 {
                a = i;
            } else {
                b = i;
            }
            count = count + 1;
            cur = i + 1;
            assert(s@.subrange(cur as int, i + 1) =~= Seq::<char>::empty());
        } else {
            assert(s@.subrange(cur as int, i + 1) =~= s@.subrange(cur as int, i as int).push(c));
        }
        i = i + 1;
    }
    assert(s@.subrange(0, n as int) =~= s@);
    if count != 2 {
        return None;
    }
    assert(split_on(s@, '|') =~= seq![
        s@.subrange(0, a as int),
        s@.subrange(a + 1, b as int),
        s@.subrange(b + 1, s@.len() as int),
    ]);
    Some((a, b))
}

/// Decimal digits hold no separator.
proof fn lemma_no_sep_in_decimal(n: nat)
    ensures
        !decimal(n).contains('|'),
{
    lemma_decimal_digits(n);
    if decimal(n).contains('|') {
        let i = choose|i: int| 0 <= i < decimal(n).len() && decimal(n)[i] == '|';
        assert(is_digit(decimal(n)[i]));
    }
}

impl DeletePartitions {
    pub fn validate(&self) -> (r: Result<(), IggyError>)
        ensures
            r == (match checked(*self) {
                Ok(_) => Ok(()),
                Err(e) => Err(e),
            }),
    {
        if self.stream_id == 0 {
            return Err(IggyError::InvalidStreamId);
        }
        if self.topic_id == 0 {
            return Err(IggyError::InvalidTopicId);
        }
        Ok(())
    }

    pub fn as_bytes(&self) -> (r: Vec<u8>)
        ensures
            r@ == bytes_of(*self),
    {
        let mut bytes: Vec<u8> = Vec::with_capacity(12);
        write_u32_le(&mut bytes, self.stream_id);
        write_u32_le(&mut bytes, self.topic_id);
        write_u32_le(&mut bytes, self.partitions_count);
        assert(bytes@ =~= bytes_of(*self));
        bytes
    }

    pub fn from_bytes(bytes: &[u8]) -> (r: Result<DeletePartitions, IggyError>)
        ensures
            r == from_bytes_spec(bytes@),
    {
        if bytes.len() != 12 {
            return Err(IggyError::InvalidCommand);
        }
        let stream_id = read_u32_le(bytes, 0);
        let topic_id = read_u32_le(bytes, 4);
        let partitions_count = read_u32_le(bytes, 8);
        let command = DeletePartitions { stream_id, topic_id, partitions_count };
        match command.validate() {
            Ok(()) => Ok(command),
            Err(e) => Err(e),
        }
    }

    /// The text form, `stream_id|topic_id|partitions_count` in decimal.
    pub fn to_string(&self) -> (r: String)
        ensures
            r@ == text_of(*self),
    {
        let mut out = String::new();
        push_decimal(&mut out, self.stream_id);
        out.append("|");
        push_decimal(&mut out, self.topic_id);
        out.append("|");
        push_decimal(&mut out, self.partitions_count);
        proof {
            reveal_strlit("|");
        }
        assert(out@ =~= text_of(*self));
        out
    }

    pub fn from_str(input: &str) -> (r: Result<DeletePartitions, IggyError>)
        ensures
            r == from_text_spec(input@),
    {
        let n = input.unicode_len();
        match split_three(input) {
            None => Err(IggyError::InvalidCommand),
            Some((a, b)) => {
                let stream_id = parse_u32_in(input, 0, a);
                let topic_id = parse_u32_in(input, a + 1, b);
                let partitions_count = parse_u32_in(input, b + 1, n);
                match (stream_id, topic_id, partitions_count) {
                    (Some(stream_id), Some(topic_id), Some(partitions_count)) => {
                        let command = DeletePartitions { stream_id, topic_id, partitions_count };
                        match command.validate() {
                            Ok(()) => Ok(command),
                            Err(e) => Err(e),
                        }
                    },
                    _ => Err(IggyError::InvalidNumberValue),
                }
            },
        }
    }
}

/// A valid command read back from its bytes is the same command, and bytes
/// that read as a command are that command's bytes.
pub proof fn lemma_bytes_round_trip(c: DeletePartitions, b: Seq<u8>)
    requires
        checked(c) == Ok::<DeletePartitions, IggyError>(c),
    ensures
        from_bytes_spec(bytes_of(c)) == Ok::<DeletePartitions, IggyError>(c),
        from_bytes_spec(b) is Ok ==> bytes_of(from_bytes_spec(b)->Ok_0) == b,
{
    let s = u32_bytes(c.stream_id);
    let t = u32_bytes(c.topic_id);
    let p = u32_bytes(c.partitions_count);
    let e = Seq::<u8>::empty();
    assert(bytes_of(c) =~= e + s + (t + p));
    lemma_u32_round_trip(c.stream_id, e, t + p);
    assert(bytes_of(c) =~= s + t + p);
    lemma_u32_round_trip(c.topic_id, s, p);
    assert(bytes_of(c) =~= (s + t) + p + e);
    lemma_u32_round_trip(c.partitions_count, s + t, e);
    if from_bytes_spec(b) is Ok {
        lemma_u32_bytes_of_le(b, 0);
        lemma_u32_bytes_of_le(b, 4);
        lemma_u32_bytes_of_le(b, 8);
        assert(bytes_of(from_bytes_spec(b)->Ok_0) =~= b);
    }
}

/// A valid command read back from its text is the same command.
pub proof fn lemma_text_round_trip(c: DeletePartitions)
    requires
        checked(c) == Ok::<DeletePartitions, IggyError>(c),
    ensures
        from_text_spec(text_of(c)) == Ok::<DeletePartitions, IggyError>(c),
{
    let ds = decimal(c.stream_id as nat);
    let dt = decimal(c.topic_id as nat);
    let dp = decimal(c.partitions_count as nat);
    let e = Seq::<char>::empty();
    lemma_no_sep_in_decimal(c.stream_id as nat);
    lemma_no_sep_in_decimal(c.topic_id as nat);
    lemma_no_sep_in_decimal(c.partitions_count as nat);
    assert(split_on(e, '|') =~= seq![e]);
    lemma_split_on_append_field(e, ds, '|');
    assert(e + ds =~= ds);
    assert(split_on(ds, '|') =~= seq![ds]);
    lemma_split_on_push_sep(ds, '|');
    let x1 = ds.push('|');
    lemma_split_on_append_field(x1, dt, '|');
    assert(split_on(x1 + dt, '|') =~= seq![ds, dt]);
    let x2 = (x1 + dt).push('|');
    lemma_split_on_push_sep(x1 + dt, '|');
    lemma_split_on_append_field(x2, dp, '|');
    assert(split_on(x2 + dp, '|') =~= seq![ds, dt, dp]);
    assert(text_of(c) =~= x2 + dp);
    lemma_parse_decimal(c.stream_id);
    lemma_parse_decimal(c.topic_id);
    lemma_parse_decimal(c.partitions_count);
}

} // verus!
