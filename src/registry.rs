//! The namespace of streams and topics, the commands that change it, and the
//! replay of the log of those commands.
use vstd::prelude::*;
use crate::delete_partitions::{checked, DeletePartitions};
use crate::error::IggyError;

verus! {

pub struct TopicState {
    pub id: u32,
    pub name: Seq<char>,
    pub partitions_count: u32,
}

pub struct StreamState {
    pub id: u32,
    pub name: Seq<char>,
    pub topics: Seq<TopicState>,
}

/// A topic of a stream and its number of partitions, numbered 1 up.
#[derive(Debug)]
pub struct TopicEntry {
    pub id: u32,
    pub name: String,
    pub partitions_count: u32,
}

impl View for TopicEntry {
    type V = TopicState;

    open spec fn view(&self) -> TopicState {
        TopicState { id: self.id, name: self.name@, partitions_count: self.partitions_count }
    }
}

#[derive(Debug)]
pub struct StreamEntry {
    pub id: u32,
    pub name: String,
    pub topics: Vec<TopicEntry>,
}

impl View for StreamEntry {
    type V = StreamState;

    open spec fn view(&self) -> StreamState {
        StreamState {
            id: self.id,
            name: self.name@,
            topics: self.topics@.map_values(|t: TopicEntry| t@),
        }
    }
}

/// An administrative command, as the state log records it.
#[derive(Debug)]
pub enum EntryCommand {
    /// A stream; without an id it gets one more than the largest.
    CreateStream { stream_id: Option<u32>, name: String },
    /// A topic of a stream; without an id it gets one more than the largest.
    CreateTopic { stream_id: u32, topic_id: Option<u32>, name: String, partitions_count: u32 },
    CreatePartitions { stream_id: u32, topic_id: u32, partitions_count: u32 },
    DeletePartitions(DeletePartitions),
    DeleteStream { stream_id: u32 },
}

pub enum CommandView {
    CreateStream { stream_id: Option<u32>, name: Seq<char> },
    CreateTopic { stream_id: u32, topic_id: Option<u32>, name: Seq<char>, partitions_count: u32 },
    CreatePartitions { stream_id: u32, topic_id: u32, partitions_count: u32 },
    DeletePartitions(DeletePartitions),
    DeleteStream { stream_id: u32 },
}

impl View for EntryCommand {
    type V = CommandView;

    open spec fn view(&self) -> CommandView {
        match self {
            EntryCommand::CreateStream { stream_id, name } => CommandView::CreateStream {
                stream_id: *stream_id,
                name: name@,
            },
            EntryCommand::CreateTopic { stream_id, topic_id, name, partitions_count } =>
                CommandView::CreateTopic {
                stream_id: *stream_id,
                topic_id: *topic_id,
                name: name@,
                partitions_count: *partitions_count,
            },
            EntryCommand::CreatePartitions { stream_id, topic_id, partitions_count } =>
                CommandView::CreatePartitions {
                stream_id: *stream_id,
                topic_id: *topic_id,
                partitions_count: *partitions_count,
            },
            EntryCommand::DeletePartitions(c) => CommandView::DeletePartitions(*c),
            EntryCommand::DeleteStream { stream_id } => CommandView::DeleteStream {
                stream_id: *stream_id,
            },
        }
    }
}

impl EntryCommand {
    pub fn duplicate(&self) -> (r: EntryCommand)
        ensures
            r@ == self@,
    {
        match self {
            EntryCommand::CreateStream { stream_id, name } => EntryCommand::CreateStream {
                stream_id: *stream_id,
                name: name.clone(),
            },
            EntryCommand::CreateTopic { stream_id, topic_id, name, partitions_count } =>
                EntryCommand::CreateTopic {
                stream_id: *stream_id,
                topic_id: *topic_id,
                name: name.clone(),
                partitions_count: *partitions_count,
            },
            EntryCommand::CreatePartitions { stream_id, topic_id, partitions_count } =>
                EntryCommand::CreatePartitions {
                stream_id: *stream_id,
                topic_id: *topic_id,
                partitions_count: *partitions_count,
            },
            EntryCommand::DeletePartitions(c) => EntryCommand::DeletePartitions(*c),
            EntryCommand::DeleteStream { stream_id } => EntryCommand::DeleteStream {
                stream_id: *stream_id,
            },
        }
    }
}

/// A record of the state log: its number (dense from 1), when it was
/// written in microseconds, who issued the command, and the command.
#[derive(Debug)]
pub struct StateEntry {
    pub seq: u64,
    pub timestamp: u64,
    pub user_id: u32,
    pub command: EntryCommand,
}

pub struct EntryView {
    pub seq: u64,
    pub timestamp: u64,
    pub user_id: u32,
    pub command: CommandView,
}

impl View for StateEntry {
    type V = EntryView;

    open spec fn view(&self) -> EntryView {
        EntryView {
            seq: self.seq,
            timestamp: self.timestamp,
            user_id: self.user_id,
            command: self.command@,
        }
    }
}

pub open spec fn entry_views(log: Seq<StateEntry>) -> Seq<EntryView> {
    log.map_values(|e: StateEntry| e@)
}

/// Entries numbered 1, 2, 3, ... in order.
pub open spec fn dense_seqs(es: Seq<EntryView>) -> bool {
    forall|i: int| 0 <= i < es.len() ==> (#[trigger] es[i]).seq == i + 1
}

pub open spec fn commands_of(es: Seq<EntryView>) -> Seq<CommandView> {
    es.map_values(|e: EntryView| e.command)
}

/// The registry that replaying the entries gives; misnumbered entries or a
/// refused command mean the state is corrupt.
pub open spec fn replay_entries_spec(es: Seq<EntryView>) -> Result<Seq<StreamState>, IggyError> {
    if dense_seqs(es) {
        replay_spec(commands_of(es))
    } else {
        Err(IggyError::CorruptState)
    }
}

// ---- the model ----

pub open spec fn has_stream(v: Seq<StreamState>, id: u32) -> bool {
    exists|i: int| 0 <= i < v.len() && (#[trigger] v[i]).id == id
}

pub open spec fn stream_pos(v: Seq<StreamState>, id: u32) -> int {
    choose|i: int| 0 <= i < v.len() && (#[trigger] v[i]).id == id
}

pub open spec fn stream_name_taken(v: Seq<StreamState>, name: Seq<char>) -> bool {
    exists|i: int| 0 <= i < v.len() && (#[trigger] v[i]).name == name
}

pub open spec fn has_topic(t: Seq<TopicState>, id: u32) -> bool {
    exists|i: int| 0 <= i < t.len() && (#[trigger] t[i]).id == id
}

pub open spec fn topic_pos(t: Seq<TopicState>, id: u32) -> int {
    choose|i: int| 0 <= i < t.len() && (#[trigger] t[i]).id == id
}

pub open spec fn topic_name_taken(t: Seq<TopicState>, name: Seq<char>) -> bool {
    exists|i: int| 0 <= i < t.len() && (#[trigger] t[i]).name == name
}

pub open spec fn max_stream_id(v: Seq<StreamState>) -> u32
    decreases v.len(),
{
    if v.len() == 0 {
        0
    } else if v.last().id > max_stream_id(v.drop_last()) {
        v.last().id
    } else {
        max_stream_id(v.drop_last())
    }
}

pub open spec fn max_topic_id(t: Seq<TopicState>) -> u32
    decreases t.len(),
{
    if t.len() == 0 {
        0
    } else if t.last().id > max_topic_id(t.drop_last()) {
        t.last().id
    } else {
        max_topic_id(t.drop_last())
    }
}

/// The topics of the stream at `pos` replaced by `topics`.
pub open spec fn with_topics(v: Seq<StreamState>, pos: int, topics: Seq<TopicState>) -> Seq<
    StreamState,
> {
    v.update(pos, StreamState { topics, ..v[pos] })
}

/// The partition count of topic `topic_id` of stream `stream_id` set to `count`.
pub open spec fn with_partitions(v: Seq<StreamState>, stream_id: u32, topic_id: u32, count: u32) -> Seq<
    StreamState,
> {
    let s = v[stream_pos(v, stream_id)];
    let t = s.topics[topic_pos(s.topics, topic_id)];
    with_topics(
        v,
        stream_pos(v, stream_id),
        s.topics.update(topic_pos(s.topics, topic_id), TopicState { partitions_count: count, ..t }),
    )
}

/// The registry after command `c`, or why `c` is refused.
pub open spec fn apply_spec(v: Seq<StreamState>, c: CommandView) -> Result<Seq<StreamState>, IggyError> {
    match c {
        CommandView::CreateStream { stream_id, name } => {
            if stream_id == Some(0u32) {
                Err(IggyError::InvalidStreamId)
            } else if stream_name_taken(v, name) {
                Err(IggyError::ResourceAlreadyExists)
            } else {
                match stream_id {
                    Some(id) => if has_stream(v, id) {
                        Err(IggyError::ResourceAlreadyExists)
                    } else {
                        Ok(v.push(StreamState { id, name, topics: Seq::empty() }))
                    },
                    None => if max_stream_id(v) == u32::MAX {
                        Err(IggyError::InvalidStreamId)
                    } else {
                        Ok(
                            v.push(
                                StreamState {
                                    id: (max_stream_id(v) + 1) as u32,
                                    name,
                                    topics: Seq::empty(),
                                },
                            ),
                        )
                    },
                }
            }
        },
        CommandView::CreateTopic { stream_id, topic_id, name, partitions_count } => {
            if !has_stream(v, stream_id) {
                Err(IggyError::ResourceNotFound)
            } else if topic_id == Some(0u32) {
                Err(IggyError::InvalidTopicId)
            } else if partitions_count == 0 {
                Err(IggyError::InvalidPartitionsCount)
            } else {
                let pos = stream_pos(v, stream_id);
                let t = v[pos].topics;
                if topic_name_taken(t, name) {
                    Err(IggyError::ResourceAlreadyExists)
                } else {
                    match topic_id {
                        Some(id) => if has_topic(t, id) {
                            Err(IggyError::ResourceAlreadyExists)
                        } else {
                            Ok(with_topics(v, pos, t.push(TopicState { id, name, partitions_count })))
                        },
                        None => if max_topic_id(t) == u32::MAX {
                            Err(IggyError::InvalidTopicId)
                        } else {
                            Ok(
                                with_topics(
                                    v,
                                    pos,
                                    t.push(
                                        TopicState {
                                            id: (max_topic_id(t) + 1) as u32,
                                            name,
                                            partitions_count,
                                        },
                                    ),
                                ),
                            )
                        },
                    }
                }
            }
        },
        CommandView::CreatePartitions { stream_id, topic_id, partitions_count } => {
            if partitions_count == 0 {
                Err(IggyError::InvalidPartitionsCount)
            } else if !has_stream(v, stream_id) || !has_topic(
                v[stream_pos(v, stream_id)].topics,
                topic_id,
            ) {
                Err(IggyError::ResourceNotFound)
            } else {
                let s = v[stream_pos(v, stream_id)];
                let old = s.topics[topic_pos(s.topics, topic_id)].partitions_count;
                if old + partitions_count > u32::MAX {
                    Err(IggyError::InvalidPartitionsCount)
                } else {
                    Ok(with_partitions(v, stream_id, topic_id, (old + partitions_count) as u32))
                }
            }
        },
        CommandView::DeletePartitions(d) => {
            if checked(d) is Err {
                Err(checked(d)->Err_0)
            } else if !has_stream(v, d.stream_id) || !has_topic(
                v[stream_pos(v, d.stream_id)].topics,
                d.topic_id,
            ) {
                Err(IggyError::ResourceNotFound)
            } else {
                let s = v[stream_pos(v, d.stream_id)];
                let old = s.topics[topic_pos(s.topics, d.topic_id)].partitions_count;
                if d.partitions_count == 0 || d.partitions_count > old {
                    Err(IggyError::InvalidPartitionsCount)
                } else {
                    Ok(with_partitions(v, d.stream_id, d.topic_id, (old - d.partitions_count) as u32))
                }
            }
        },
        CommandView::DeleteStream { stream_id } => {
            if !has_stream(v, stream_id) {
                Err(IggyError::ResourceNotFound)
            } else {
                Ok(v.remove(stream_pos(v, stream_id)))
            }
        },
    }
}

/// The registry that replaying `log` from an empty one gives; a command that
/// is refused makes the state corrupt.
pub open spec fn replay_spec(log: Seq<CommandView>) -> Result<Seq<StreamState>, IggyError>
    decreases log.len(),
{
    if log.len() == 0 {
        Ok(Seq::empty())
    } else {
        match replay_spec(log.drop_last()) {
            Ok(v) => match apply_spec(v, log.last()) {
                Ok(w) => Ok(w),
                Err(_) => Err(IggyError::CorruptState),
            },
            Err(e) => Err(e),
        }
    }
}

/// The registry after attempting `cs` in order from an empty one; a refused
/// command changes nothing.
pub open spec fn run_spec(cs: Seq<CommandView>) -> Seq<StreamState>
    decreases cs.len(),
{
    if cs.len() == 0 {
        Seq::empty()
    } else {
        match apply_spec(run_spec(cs.drop_last()), cs.last()) {
            Ok(w) => w,
            Err(_) => run_spec(cs.drop_last()),
        }
    }
}

/// The commands of `cs` that were accepted, which are the ones logged.
pub open spec fn committed(cs: Seq<CommandView>) -> Seq<CommandView>
    decreases cs.len(),
{
    if cs.len() == 0 {
        Seq::empty()
    } else if apply_spec(run_spec(cs.drop_last()), cs.last()) is Ok {
        committed(cs.drop_last()).push(cs.last())
    } else {
        committed(cs.drop_last())
    }
}

/// Replaying the log of the commands that were accepted rebuilds the
/// registry that running all of them built.
pub proof fn lemma_replay_restores(cs: Seq<CommandView>)
    ensures
        replay_spec(committed(cs)) == Ok::<Seq<StreamState>, IggyError>(run_spec(cs)),
    decreases cs.len(),
{
    if cs.len() > 0 {
        lemma_replay_restores(cs.drop_last());
        let prev = committed(cs.drop_last());
        if apply_spec(run_spec(cs.drop_last()), cs.last()) is Ok {
            assert(committed(cs).drop_last() =~= prev);
        }
    }
}

/// Stream ids are unique, and so are topic ids within a stream.
pub open spec fn wf_state(v: Seq<StreamState>) -> bool {
    &&& forall|i: int, j: int| 0 <= i < j < v.len() ==> (#[trigger] v[i]).id != (#[trigger] v[j]).id
    &&& forall|i: int| 0 <= i < v.len() ==> unique_topics(#[trigger] v[i].topics)
}

pub open spec fn unique_topics(t: Seq<TopicState>) -> bool {
    forall|a: int, b: int| 0 <= a < b < t.len() ==> (#[trigger] t[a]).id != (#[trigger] t[b]).id
}

proof fn lemma_max_stream_id(v: Seq<StreamState>)
    ensures
        forall|i: int| 0 <= i < v.len() ==> (#[trigger] v[i]).id <= max_stream_id(v),
    decreases v.len(),
{
    if v.len() > 0 {
        lemma_max_stream_id(v.drop_last());
        assert forall|i: int| 0 <= i < v.len() implies (#[trigger] v[i]).id <= max_stream_id(v) by {
            if i < v.len() - 1 {
                assert(v[i] == v.drop_last()[i]);
            }
        }
    }
}

proof fn lemma_max_topic_id(t: Seq<TopicState>)
    ensures
        forall|i: int| 0 <= i < t.len() ==> (#[trigger] t[i]).id <= max_topic_id(t),
    decreases t.len(),
{
    if t.len() > 0 {
        lemma_max_topic_id(t.drop_last());
        assert forall|i: int| 0 <= i < t.len() implies (#[trigger] t[i]).id <= max_topic_id(t) by {
            if i < t.len() - 1 {
                assert(t[i] == t.drop_last()[i]);
            }
        }
    }
}

/// Every accepted command keeps ids unique.
pub proof fn lemma_apply_keeps_wf(v: Seq<StreamState>, c: CommandView)
    requires
        wf_state(v),
    ensures
        apply_spec(v, c) matches Ok(w) ==> wf_state(w),
{
    lemma_max_stream_id(v);
    if has_stream(v, c_stream(c)) {
        let pos = stream_pos(v, c_stream(c));
        lemma_max_topic_id(v[pos].topics);
        assert(unique_topics(v[pos].topics));
    }
    if let Ok(w) = apply_spec(v, c) {
        match c {
            CommandView::DeleteStream { stream_id } => {
                let pos = stream_pos(v, stream_id);
                assert forall|i: int, j: int| 0 <= i < j < w.len() implies (#[trigger] w[i]).id
                    != (#[trigger] w[j]).id by {
                    let i2 = if i < pos { i } else { i + 1 };
                    let j2 = if j < pos { j } else { j + 1 };
                    assert(w[i] == v[i2] && w[j] == v[j2]);
                }
                assert forall|i: int| 0 <= i < w.len() implies unique_topics(#[trigger] w[i].topics) by {
                    let i2 = if i < pos { i } else { i + 1 };
                    assert(w[i] == v[i2]);
                }
            },
            CommandView::CreateStream { .. } => {
                assert forall|i: int| 0 <= i < w.len() implies unique_topics(#[trigger] w[i].topics) by {
                    if i < v.len() {
                        assert(w[i] == v[i]);
                    }
                }
            },
            CommandView::CreateTopic { stream_id, .. } => {
                let pos = stream_pos(v, stream_id);
                assert forall|i: int| 0 <= i < w.len() implies unique_topics(#[trigger] w[i].topics) by {
                    if i != pos {
                        assert(w[i] == v[i]);
                    } else {
                        let t = w[i].topics;
                        assert forall|a: int, b: int| 0 <= a < b < t.len() implies (#[trigger] t[a]).id
                            != (#[trigger] t[b]).id by {
                            if b < t.len() - 1 {
                                assert(t[a] == v[pos].topics[a] && t[b] == v[pos].topics[b]);
                            } else {
                                assert(t[a] == v[pos].topics[a]);
                            }
                        }
                    }
                }
            },
            _ => {
                let (sid, tid) = match c {
                    CommandView::CreatePartitions { stream_id, topic_id, .. } => (stream_id, topic_id),
                    CommandView::DeletePartitions(d) => (d.stream_id, d.topic_id),
                    _ => (0u32, 0u32),
                };
                let pos = stream_pos(v, sid);
                let tpos = topic_pos(v[pos].topics, tid);
                assert forall|i: int| 0 <= i < w.len() implies unique_topics(#[trigger] w[i].topics) by {
                    if i != pos {
                        assert(w[i] == v[i]);
                    } else {
                        let t = w[i].topics;
                        assert forall|a: int, b: int| 0 <= a < b < t.len() implies (#[trigger] t[a]).id
                            != (#[trigger] t[b]).id by {
                            assert(t[a].id == v[pos].topics[a].id && t[b].id == v[pos].topics[b].id);
                        }
                    }
                }
            },
        }
    }
}

/// The stream that a command names first.
pub open spec fn c_stream(c: CommandView) -> u32 {
    match c {
        CommandView::CreateStream { .. } => 0,
        CommandView::CreateTopic { stream_id, .. } => stream_id,
        CommandView::CreatePartitions { stream_id, .. } => stream_id,
        CommandView::DeletePartitions(d) => d.stream_id,
        CommandView::DeleteStream { stream_id } => stream_id,
    }
}

fn same_text(a: &str, b: &str) -> (r: bool)
    ensures
        r == (a@ == b@),
{
    let n = a.unicode_len();
    if n != b.unicode_len() {
        return false;
    }
    let mut i: usize = 0;
    while i < n
        invariant
            n == a@.len() == b@.len(),
            i <= n,
            forall|k: int| 0 <= k < i ==> a@[k] == b@[k],
        decreases n - i,
    {
        if a.get_char(i) != b.get_char(i) {
            return false;
        }
        i = i + 1;
    }
    assert(a@ =~= b@);
    true
}

pub open spec fn topic_views(t: Seq<TopicEntry>) -> Seq<TopicState> {
    t.map_values(|e: TopicEntry| e@)
}

fn find_topic(topics: &Vec<TopicEntry>, id: u32) -> (r: Option<usize>)
    requires
        unique_topics(topic_views(topics@)),
    ensures
        r matches Some(j) ==> j < topics@.len() && has_topic(topic_views(topics@), id) && j == topic_pos(
            topic_views(topics@),
            id,
        ),
        r is None ==> !has_topic(topic_views(topics@), id),
{
    let ghost t = topic_views(topics@);
    let mut i: usize = 0;
    while i < topics.len()
        invariant
            t == topic_views(topics@),
            unique_topics(t),
            i <= topics@.len(),
            forall|k: int| 0 <= k < i ==> (#[trigger] t[k]).id != id,
        decreases topics@.len() - i,
    {
        if topics[i].id == id {
            assert(t[i as int].id == id);
            let ghost p = topic_pos(t, id);
            assert(p == i) by {
                if p != i {
                    assert(t[p].id == id);
                }
            }
            return Some(i);
        }
        i = i + 1;
    }
    None
}

fn topic_name_exists(topics: &Vec<TopicEntry>, name: &String) -> (r: bool)
    ensures
        r == topic_name_taken(topic_views(topics@), name@),
{
    let ghost t = topic_views(topics@);
    let mut i: usize = 0;
    while i < topics.len()
        invariant
            t == topic_views(topics@),
            i <= topics@.len(),
            forall|k: int| 0 <= k < i ==> (#[trigger] t[k]).name != name@,
        decreases topics@.len() - i,
    {
        if same_text(topics[i].name.as_str(), name.as_str()) {
            assert(t[i as int].name == name@);
            return true;
        }
        i = i + 1;
    }
    false
}

fn largest_topic_id(topics: &Vec<TopicEntry>) -> (r: u32)
    ensures
        r == max_topic_id(topic_views(topics@)),
{
    let ghost t = topic_views(topics@);
    let mut m: u32 = 0;
    let mut i: usize = 0;
    assert(t.subrange(0, 0) =~= Seq::<TopicState>::empty());
    while i < topics.len()
        invariant
            t == topic_views(topics@),
            i <= topics@.len(),
            m == max_topic_id(t.subrange(0, i as int)),
        decreases topics@.len() - i,
    {
        assert(t.subrange(0, i + 1).drop_last() =~= t.subrange(0, i as int));
        if topics[i].id > m {
            m = topics[i].id;
        }
        i = i + 1;
    }
    assert(t.subrange(0, i as int) =~= t);
    m
}

/// Streams, each with its topics.
pub struct Registry {
    pub streams: Vec<StreamEntry>,
}

impl View for Registry {
    type V = Seq<StreamState>;

    open spec fn view(&self) -> Seq<StreamState> {
        self.streams@.map_values(|s: StreamEntry| s@)
    }
}

impl Registry {
    pub fn new() -> (r: Registry)
        ensures
            r@ == Seq::<StreamState>::empty(),
            wf_state(r@),
    {
        let r = Registry { streams: Vec::new() };
        assert(r@ =~= Seq::<StreamState>::empty());
        r
    }

    fn find_stream(&self, id: u32) -> (r: Option<usize>)
        requires
            wf_state(self@),
        ensures
            r matches Some(j) ==> j < self.streams@.len() && has_stream(self@, id) && j == stream_pos(self@, id),
            r is None ==> !has_stream(self@, id),
    {
        let mut i: usize = 0;
        while i < self.streams.len()
            invariant
                wf_state(self@),
                i <= self.streams@.len(),
                forall|k: int| 0 <= k < i ==> (#[trigger] self@[k]).id != id,
            decreases self.streams@.len() - i,
        {
            if self.streams[i].id == id {
                assert(self@[i as int].id == id);
                let ghost p = stream_pos(self@, id);
                assert(p == i) by {
                    if p != i {
                        assert(self@[p].id == id);
                    }
                }
                return Some(i);
            }
            i = i + 1;
        }
        None
    }

    fn stream_name_exists(&self, name: &String) -> (r: bool)
        ensures
            r == stream_name_taken(self@, name@),
    {
        let mut i: usize = 0;
        while i < self.streams.len()
            invariant
                i <= self.streams@.len(),
                forall|k: int| 0 <= k < i ==> (#[trigger] self@[k]).name != name@,
            decreases self.streams@.len() - i,
        {
            if same_text(self.streams[i].name.as_str(), name.as_str()) {
                assert(self@[i as int].name == name@);
                return true;
            }
            i = i + 1;
        }
        false
    }

    fn largest_stream_id(&self) -> (r: u32)
        ensures
            r == max_stream_id(self@),
    {
        let ghost v = self@;
        let mut m: u32 = 0;
        let mut i: usize = 0;
        assert(v.subrange(0, 0) =~= Seq::<StreamState>::empty());
        while i < self.streams.len()
            invariant
                v == self@,
                i <= self.streams@.len(),
                m == max_stream_id(v.subrange(0, i as int)),
            decreases self.streams@.len() - i,
        {
            assert(v.subrange(0, i + 1).drop_last() =~= v.subrange(0, i as int));
            if self.streams[i].id > m {
                m = self.streams[i].id;
            }
            i = i + 1;
        }
        assert(v.subrange(0, i as int) =~= v);
        m
    }
}

/// What a command did to a registry: the registry after it, or why it was
/// refused and the registry unchanged.
pub open spec fn outcome(before: Seq<StreamState>, c: CommandView, after: Seq<StreamState>, r: Result<(), IggyError>) -> bool {
    match apply_spec(before, c) {
        Ok(w) => r is Ok && after == w,
        Err(e) => r == Err::<(), IggyError>(e) && after == before,
    }
}

impl Registry {
    proof fn lemma_topics_view(&self, pos: int)
        requires
            0 <= pos < self.streams@.len(),
        ensures
            self@[pos].topics == topic_views(self.streams@[pos].topics@),
    {
    }

    fn create_stream(&mut self, stream_id: Option<u32>, name: String) -> (r: Result<(), IggyError>)
        requires
            wf_state(old(self)@),
        ensures
            outcome(old(self)@, CommandView::CreateStream { stream_id, name: name@ }, final(self)@, r),
    {
        if let Some(0) = stream_id {
            return Err(IggyError::InvalidStreamId);
        }
        if self.stream_name_exists(&name) {
            return Err(IggyError::ResourceAlreadyExists);
        }
        let id = match stream_id {
            Some(id) => {
                if self.find_stream(id).is_some() {
                    return Err(IggyError::ResourceAlreadyExists);
                }
                id
            },
            None => {
                let m = self.largest_stream_id();
                if m == u32::MAX {
                    return Err(IggyError::InvalidStreamId);
                }
                m + 1
            },
        };
        let ghost before = self@;
        let entry = StreamEntry { id, name, topics: Vec::new() };
        assert(entry@.topics =~= Seq::<TopicState>::empty());
        self.streams.push(entry);
        assert(self@ =~= before.push(entry@));
        Ok(())
    }

    fn create_topic(
        &mut self,
        stream_id: u32,
        topic_id: Option<u32>,
        name: String,
        partitions_count: u32,
    ) -> (r: Result<(), IggyError>)
        requires
            wf_state(old(self)@),
        ensures
            outcome(
                old(self)@,
                CommandView::CreateTopic { stream_id, topic_id, name: name@, partitions_count },
                final(self)@,
                r,
            ),
    {
        let pos = match self.find_stream(stream_id) {
            None => {
                return Err(IggyError::ResourceNotFound);
            },
            Some(p) => p,
        };
        if let Some(0) = topic_id {
            return Err(IggyError::InvalidTopicId);
        }
        if partitions_count == 0 {
            return Err(IggyError::InvalidPartitionsCount);
        }
        proof {
            self.lemma_topics_view(pos as int);
        }
        if topic_name_exists(&self.streams[pos].topics, &name) {
            return Err(IggyError::ResourceAlreadyExists);
        }
        let id = match topic_id {
            Some(id) => {
                if find_topic(&self.streams[pos].topics, id).is_some() {
                    return Err(IggyError::ResourceAlreadyExists);
                }
                id
            },
            None => {
                let m = largest_topic_id(&self.streams[pos].topics);
                if m == u32::MAX {
                    return Err(IggyError::InvalidTopicId);
                }
                m + 1
            },
        };
        let ghost before = self@;
        let mut stream = self.streams.remove(pos);
        let ghost old_topics = stream.topics@;
        let topic = TopicEntry { id, name, partitions_count };
        stream.topics.push(topic);
        assert(stream@.topics =~= before[pos as int].topics.push(topic@));
        self.streams.insert(pos, stream);
        assert(self@ =~= with_topics(before, pos as int, before[pos as int].topics.push(topic@)));
        Ok(())
    }

    /// Sets the partition count of the topic at `tpos` of the stream at `pos`.
    fn set_partitions(&mut self, pos: usize, tpos: usize, count: u32)
        requires
            pos < old(self).streams@.len(),
            tpos < old(self).streams@[pos as int].topics@.len(),
        ensures
            final(self)@ == with_topics(
                old(self)@,
                pos as int,
                old(self)@[pos as int].topics.update(
                    tpos as int,
                    TopicState { partitions_count: count, ..old(self)@[pos as int].topics[tpos as int] },
                ),
            ),
    {
        let ghost before = self@;
        let mut stream = self.streams.remove(pos);
        let mut topic = stream.topics.remove(tpos);
        topic.partitions_count = count;
        stream.topics.insert(tpos, topic);
        assert(stream@.topics =~= before[pos as int].topics.update(
            tpos as int,
            TopicState { partitions_count: count, ..before[pos as int].topics[tpos as int] },
        ));
        self.streams.insert(pos, stream);
        assert(self@ =~= with_topics(
            before,
            pos as int,
            before[pos as int].topics.update(
                tpos as int,
                TopicState { partitions_count: count, ..before[pos as int].topics[tpos as int] },
            ),
        ));
    }

    fn locate_topic(&self, stream_id: u32, topic_id: u32) -> (r: Option<(usize, usize)>)
        requires
            wf_state(self@),
        ensures
            r matches Some((p, t)) ==> has_stream(self@, stream_id) && p == stream_pos(self@, stream_id)
                && has_topic(self@[p as int].topics, topic_id) && t == topic_pos(
                self@[p as int].topics,
                topic_id,
            ) && t < self.streams@[p as int].topics@.len(),
            r is None ==> !has_stream(self@, stream_id) || !has_topic(
                self@[stream_pos(self@, stream_id)].topics,
                topic_id,
            ),
    {
        match self.find_stream(stream_id) {
            None => None,
            Some(p) => {
                proof {
                    self.lemma_topics_view(p as int);
                    assert(unique_topics(self@[p as int].topics));
                }
                match find_topic(&self.streams[p].topics, topic_id) {
                    None => None,
                    Some(t) => Some((p, t)),
                }
            },
        }
    }

    fn create_partitions(&mut self, stream_id: u32, topic_id: u32, partitions_count: u32) -> (r: Result<(), IggyError>)
        requires
            wf_state(old(self)@),
        ensures
            outcome(
                old(self)@,
                CommandView::CreatePartitions { stream_id, topic_id, partitions_count },
                final(self)@,
                r,
            ),
    {
        if partitions_count == 0 {
            return Err(IggyError::InvalidPartitionsCount);
        }
        let (pos, tpos) = match self.locate_topic(stream_id, topic_id) {
            None => {
                return Err(IggyError::ResourceNotFound);
            },
            Some(x) => x,
        };
        let current = self.streams[pos].topics[tpos].partitions_count;
        assert(current == self@[pos as int].topics[tpos as int].partitions_count);
        if current > u32::MAX - partitions_count {
            return Err(IggyError::InvalidPartitionsCount);
        }
        self.set_partitions(pos, tpos, current + partitions_count);
        Ok(())
    }

    /// Removes the highest-numbered partitions of a topic.
    pub fn delete_partitions(&mut self, command: &DeletePartitions) -> (r: Result<(), IggyError>)
        requires
            wf_state(old(self)@),
        ensures
            outcome(old(self)@, CommandView::DeletePartitions(*command), final(self)@, r),
            wf_state(final(self)@),
    {
        proof {
            lemma_apply_keeps_wf(self@, CommandView::DeletePartitions(*command));
        }
        if let Err(e) = command.validate() {
            return Err(e);
        }
        let (pos, tpos) = match self.locate_topic(command.stream_id, command.topic_id) {
            None => {
                return Err(IggyError::ResourceNotFound);
            },
            Some(x) => x,
        };
        let current = self.streams[pos].topics[tpos].partitions_count;
        assert(current == self@[pos as int].topics[tpos as int].partitions_count);
        if command.partitions_count == 0 || command.partitions_count > current {
            return Err(IggyError::InvalidPartitionsCount);
        }
        self.set_partitions(pos, tpos, current - command.partitions_count);
        Ok(())
    }

    fn delete_stream(&mut self, stream_id: u32) -> (r: Result<(), IggyError>)
        requires
            wf_state(old(self)@),
        ensures
            outcome(old(self)@, CommandView::DeleteStream { stream_id }, final(self)@, r),
    {
        let pos = match self.find_stream(stream_id) {
            None => {
                return Err(IggyError::ResourceNotFound);
            },
            Some(p) => p,
        };
        let ghost before = self@;
        let _removed = self.streams.remove(pos);
        assert(self@ =~= before.remove(pos as int));
        Ok(())
    }

    /// Applies `command`, or refuses it and changes nothing.
    pub fn apply(&mut self, command: EntryCommand) -> (r: Result<(), IggyError>)
        requires
            wf_state(old(self)@),
        ensures
            outcome(old(self)@, command@, final(self)@, r),
            wf_state(final(self)@),
    {
        proof {
            lemma_apply_keeps_wf(self@, command@);
        }
        match command {
            EntryCommand::CreateStream { stream_id, name } => self.create_stream(stream_id, name),
            EntryCommand::CreateTopic { stream_id, topic_id, name, partitions_count } =>
                self.create_topic(stream_id, topic_id, name, partitions_count),
            EntryCommand::CreatePartitions { stream_id, topic_id, partitions_count } =>
                self.create_partitions(stream_id, topic_id, partitions_count),
            EntryCommand::DeletePartitions(c) => self.delete_partitions(&c),
            EntryCommand::DeleteStream { stream_id } => self.delete_stream(stream_id),
        }
    }

    /// Applies `command` and, when it is accepted, appends it to `log` as
    /// the next entry, issued by `user_id` at `timestamp`.
    pub fn execute(
        &mut self,
        log: &mut Vec<StateEntry>,
        user_id: u32,
        timestamp: u64,
        command: EntryCommand,
    ) -> (r: Result<(), IggyError>)
        requires
            wf_state(old(self)@),
            old(log)@.len() < u64::MAX,
        ensures
            outcome(old(self)@, command@, final(self)@, r),
            wf_state(final(self)@),
            r is Ok ==> entry_views(final(log)@) == entry_views(old(log)@).push(
                EntryView {
                    seq: (old(log)@.len() + 1) as u64,
                    timestamp,
                    user_id,
                    command: command@,
                },
            ),
            r is Err ==> final(log)@ == old(log)@,
    {
        let record = command.duplicate();
        let r = self.apply(command);
        if r.is_ok() {
            let ghost before = log@;
            let seq = log.len() as u64 + 1;
            let entry = StateEntry { seq, timestamp, user_id, command: record };
            log.push(entry);
            assert(entry_views(log@) =~= entry_views(before).push(entry@));
        }
        r
    }

    /// Rebuilds the registry from a state log, applying its entries in
    /// order; a misnumbered entry or a refused command means the log is
    /// corrupt.
    pub fn replay(log: &Vec<StateEntry>) -> (r: Result<Registry, IggyError>)
        ensures
            match r {
                Ok(reg) => Ok(reg@),
                Err(e) => Err(e),
            } == replay_entries_spec(entry_views(log@)),
            r matches Ok(reg) ==> wf_state(reg@),
    {
        let ghost es = entry_views(log@);
        let ghost cs = commands_of(es);
        let mut registry = Registry::new();
        let mut i: usize = 0;
        assert(cs.subrange(0, 0) =~= Seq::<CommandView>::empty());
        while i < log.len()
            invariant
                es == entry_views(log@),
                cs == commands_of(es),
                i <= log@.len(),
                wf_state(registry@),
                forall|k: int| 0 <= k < i ==> (#[trigger] es[k]).seq == k + 1,
                replay_spec(cs.subrange(0, i as int)) == Ok::<Seq<StreamState>, IggyError>(registry@),
            decreases log@.len() - i,
        {
            assert(es[i as int] == log@[i as int]@);
            if log[i].seq != i as u64 + 1 {
                assert(!dense_seqs(es));
                return Err(IggyError::CorruptState);
            }
            let command = log[i].command.duplicate();
            assert(cs.subrange(0, i + 1).drop_last() =~= cs.subrange(0, i as int));
            assert(cs.subrange(0, i + 1).last() == command@);
            if registry.apply(command).is_err() {
                proof {
                    lemma_replay_fails_on(cs, i + 1);
                }
                return Err(IggyError::CorruptState);
            }
            i = i + 1;
        }
        assert(cs.subrange(0, i as int) =~= cs);
        assert(dense_seqs(es));
        Ok(registry)
    }
}

/// A log whose entries are the accepted commands, numbered from 1, replays
/// to the registry that running all the commands built.
pub proof fn lemma_replay_log_restores(cs: Seq<CommandView>, es: Seq<EntryView>)
    requires
        dense_seqs(es),
        commands_of(es) == committed(cs),
    ensures
        replay_entries_spec(es) == Ok::<Seq<StreamState>, IggyError>(run_spec(cs)),
{
    lemma_replay_restores(cs);
}

/// A log whose prefix fails to replay fails as a whole.
proof fn lemma_replay_fails_on(cs: Seq<CommandView>, k: int)
    requires
        0 <= k <= cs.len(),
        replay_spec(cs.subrange(0, k)) == Err::<Seq<StreamState>, IggyError>(IggyError::CorruptState),
    ensures
        replay_spec(cs) == Err::<Seq<StreamState>, IggyError>(IggyError::CorruptState),
    decreases cs.len() - k,
{
    if k < cs.len() {
        assert(cs.subrange(0, k + 1).drop_last() =~= cs.subrange(0, k));
        lemma_replay_fails_on(cs, k + 1);
    } else {
        assert(cs.subrange(0, k) =~= cs);
    }
}

} // verus!
