//! The tasks that carry bytes between a browser's WebSocket and a TCP connection.
//!
//! A session runs a few tasks side by side. Each task waits for its next event, asks what follows
//! from it, and does that: it sends byte strings on, waits for the next event, or ends. Ending one
//! task of a cancellable session cancels the others.

use vstd::prelude::*;

verus! {

/// What a WebSocket client handed over: `B` holds bytes, `T` holds text.
pub enum WsEvent<B, T> {
    Binary(B),
    Text(T),
    Close,
    /// A message of another kind, such as a ping.
    Other,
    /// Reading from the client failed.
    Failed,
    /// The client is gone.
    Ended,
}

/// What happens to a task.
pub enum TaskEvent<B, T> {
    /// The session was cancelled.
    Cancelled,
    /// The client handed something over.
    Client(WsEvent<B, T>),
    /// The task's queue handed out its next entry, or `None` if no more will come.
    Queue(Option<B>),
    /// The task's clock ticked.
    Tick,
    /// A read from the TCP connection returned these bytes, none at the end of the stream, or it
    /// failed.
    Read(Option<B>),
    /// What the task was told to send has been sent, or could not be.
    Sent(bool),
}

/// What a task does next.
pub enum Action<L> {
    /// Sends these byte strings on, in this order.
    Send(L),
    /// Waits for its next event.
    Wait,
    /// Ends.
    End,
}

/// The byte strings of a sequence of byte vectors.
pub open spec fn byte_strings(v: Seq<Vec<u8>>) -> Seq<Seq<u8>> {
    v.map_values(|b: Vec<u8>| b@)
}

/// The bytes of an optional byte vector.
pub open spec fn opt_bytes(b: Option<Vec<u8>>) -> Option<Seq<u8>> {
    match b {
        Some(b) => Some(b@),
        None => None,
    }
}

impl View for WsEvent<Vec<u8>, String> {
    type V = WsEvent<Seq<u8>, Seq<char>>;

    open spec fn view(&self) -> WsEvent<Seq<u8>, Seq<char>> {
        match *self {
            WsEvent::Binary(b) => WsEvent::Binary(b@),
            WsEvent::Text(t) => WsEvent::Text(t@),
            WsEvent::Close => WsEvent::Close,
            WsEvent::Other => WsEvent::Other,
            WsEvent::Failed => WsEvent::Failed,
            WsEvent::Ended => WsEvent::Ended,
        }
    }
}

impl View for TaskEvent<Vec<u8>, String> {
    type V = TaskEvent<Seq<u8>, Seq<char>>;

    open spec fn view(&self) -> TaskEvent<Seq<u8>, Seq<char>> {
        match *self {
            TaskEvent::Cancelled => TaskEvent::Cancelled,
            TaskEvent::Client(e) => TaskEvent::Client(e@),
            TaskEvent::Queue(b) => TaskEvent::Queue(opt_bytes(b)),
            TaskEvent::Tick => TaskEvent::Tick,
            TaskEvent::Read(b) => TaskEvent::Read(opt_bytes(b)),
            TaskEvent::Sent(ok) => TaskEvent::Sent(ok),
        }
    }
}

impl View for Action<Vec<Vec<u8>>> {
    type V = Action<Seq<Seq<u8>>>;

    open spec fn view(&self) -> Action<Seq<Seq<u8>>> {
        match *self {
            Action::Send(l) => Action::Send(byte_strings(l@)),
            Action::Wait => Action::Wait,
            Action::End => Action::End,
        }
    }
}

/// A list that holds `b` alone.
pub(crate) fn one(b: Vec<u8>) -> (r: Vec<Vec<u8>>)
    ensures
        byte_strings(r@) == seq![b@],
        r@.len() == 1,
        r@[0]@ == b@,
{
    let mut l: Vec<Vec<u8>> = Vec::new();
    l.push(b);
    assert(byte_strings(l@) =~= seq![b@]);
    l
}

// ----- The tasks -----

/// What follows for the task that reads a bridge client: binary messages go on to the device, other
/// messages are passed over, and a client that is gone or fails ends the task.
pub open spec fn bridge_client_action(event: TaskEvent<Seq<u8>, Seq<char>>) -> Action<Seq<Seq<u8>>> {
    match event {
        TaskEvent::Client(WsEvent::Binary(b)) => Action::Send(seq![b]),
        TaskEvent::Client(WsEvent::Failed) => Action::End,
        TaskEvent::Client(WsEvent::Ended) => Action::End,
        TaskEvent::Sent(ok) => if ok {
            Action::Wait
        } else {
            Action::End
        },
        _ => Action::Wait,
    }
}

/// The next step of the task that reads a bridge client.
pub fn bridge_client_step(event: TaskEvent<Vec<u8>, String>) -> (r: Action<Vec<Vec<u8>>>)
    ensures
        r@ == bridge_client_action(event@),
        match event {
            TaskEvent::Client(WsEvent::Binary(b)) => r matches Action::Send(l) && l@.len() == 1 && l@[0]@ == b@,
            _ => !(r is Send),
        },
{
    match event {
        TaskEvent::Client(WsEvent::Binary(b)) => Action::Send(one(b)),
        TaskEvent::Client(WsEvent::Failed) => Action::End,
        TaskEvent::Client(WsEvent::Ended) => Action::End,
        TaskEvent::Sent(ok) => if ok {
            Action::Wait
        } else {
            Action::End
        },
        _ => Action::Wait,
    }
}

/// What follows for a task that empties a queue: each entry goes on, and the task ends when the
/// queue ends, when sending fails or when the session is cancelled.
pub open spec fn queue_action(event: TaskEvent<Seq<u8>, Seq<char>>) -> Action<Seq<Seq<u8>>> {
    match event {
        TaskEvent::Cancelled => Action::End,
        TaskEvent::Queue(Some(b)) => Action::Send(seq![b]),
        TaskEvent::Queue(None) => Action::End,
        TaskEvent::Sent(ok) => if ok {
            Action::Wait
        } else {
            Action::End
        },
        _ => Action::Wait,
    }
}

/// The next step of a task that empties a queue.
pub fn queue_step(event: TaskEvent<Vec<u8>, String>) -> (r: Action<Vec<Vec<u8>>>)
    ensures
        r@ == queue_action(event@),
        match event {
            TaskEvent::Queue(Some(b)) => r matches Action::Send(l) && l@.len() == 1 && l@[0]@ == b@,
            _ => !(r is Send),
        },
{
    match event {
        TaskEvent::Cancelled => Action::End,
        TaskEvent::Queue(Some(b)) => Action::Send(one(b)),
        TaskEvent::Queue(None) => Action::End,
        TaskEvent::Sent(ok) => if ok {
            Action::Wait
        } else {
            Action::End
        },
        _ => Action::Wait,
    }
}

/// What follows for a task that reads a TCP connection: the bytes that were read go on, and the task
/// ends at the end of the stream, when reading or sending fails or when the session is cancelled.
pub open spec fn reader_action(event: TaskEvent<Seq<u8>, Seq<char>>) -> Action<Seq<Seq<u8>>> {
    match event {
        TaskEvent::Cancelled => Action::End,
        TaskEvent::Read(Some(b)) => if b.len() > 0 {
            Action::Send(seq![b])
        } else {
            Action::End
        },
        TaskEvent::Read(None) => Action::End,
        TaskEvent::Sent(ok) => if ok {
            Action::Wait
        } else {
            Action::End
        },
        _ => Action::Wait,
    }
}

/// The next step of a task that reads a TCP connection.
pub fn reader_step(event: TaskEvent<Vec<u8>, String>) -> (r: Action<Vec<Vec<u8>>>)
    ensures
        r@ == reader_action(event@),
        match event {
            TaskEvent::Read(Some(b)) => if b@.len() > 0 {
                r matches Action::Send(l) && l@.len() == 1 && l@[0]@ == b@
            } else {
                r is End
            },
            _ => !(r is Send),
        },
{
    match event {
        TaskEvent::Cancelled => Action::End,
        TaskEvent::Read(Some(b)) => if b.len() > 0 {
            Action::Send(one(b))
        } else {
            Action::End
        },
        TaskEvent::Read(None) => Action::End,
        TaskEvent::Sent(ok) => if ok {
            Action::Wait
        } else {
            Action::End
        },
        _ => Action::Wait,
    }
}

/// What follows for the task that watches the client of a video stream: it sends nothing on, and
/// ends when the client closes, is gone or fails or when the session is cancelled.
pub open spec fn stream_client_action(event: TaskEvent<Seq<u8>, Seq<char>>) -> Action<Seq<Seq<u8>>> {
    match event {
        TaskEvent::Cancelled => Action::End,
        TaskEvent::Client(WsEvent::Close) => Action::End,
        TaskEvent::Client(WsEvent::Failed) => Action::End,
        TaskEvent::Client(WsEvent::Ended) => Action::End,
        _ => Action::Wait,
    }
}

/// The next step of the task that watches the client of a video stream.
pub fn stream_client_step(event: TaskEvent<Vec<u8>, String>) -> (r: Action<Vec<Vec<u8>>>)
    ensures
        r@ == stream_client_action(event@),
        !(r is Send),
{
    match event {
        TaskEvent::Cancelled => Action::End,
        TaskEvent::Client(WsEvent::Close) => Action::End,
        TaskEvent::Client(WsEvent::Failed) => Action::End,
        TaskEvent::Client(WsEvent::Ended) => Action::End,
        _ => Action::Wait,
    }
}

// ----- Measuring a video stream -----

/// The port whose throughput is reported.
pub const MEASURED_PORT: u16 = 7003;

/// How long a report covers at least, in nanoseconds.
pub const REPORT_WINDOW_NS: u128 = 3_000_000_000;

/// What a video stream has carried since the last report.
#[derive(Clone, Copy, Debug, PartialEq, Eq, Structural)]
pub struct StreamStats {
    pub bytes: u64,
    pub chunks: u64,
    pub send_us: u128,
}

impl StreamStats {
    /// Nothing carried yet.
    pub fn new() -> (r: Self)
        ensures
            r == (StreamStats { bytes: 0, chunks: 0, send_us: 0 }),
    {
        StreamStats { bytes: 0, chunks: 0, send_us: 0 }
    }

    /// These totals and one chunk more.
    pub open spec fn with_chunk(self, len: usize, send_us: u128) -> Self {
        StreamStats {
            bytes: (self.bytes + len) as u64,
            chunks: (self.chunks + 1) as u64,
            send_us: (self.send_us + send_us) as u128,
        }
    }

    /// Whether one chunk more leaves the totals in range.
    pub open spec fn has_room(self, len: usize, send_us: u128) -> bool {
        self.bytes + len <= u64::MAX && self.chunks < u64::MAX && self.send_us + send_us <= u128::MAX
    }

    /// Whether one chunk more leaves the totals in range.
    pub fn room(&self, len: usize, send_us: u128) -> (r: bool)
        ensures
            r == self.has_room(len, send_us),
    {
        u64::MAX - self.bytes >= len as u64 && self.chunks < u64::MAX && u128::MAX - self.send_us >= send_us
    }

    /// Counts a chunk of `len` bytes that took `send_us` microseconds to send on. Where the window
    /// since the last report is long enough its totals are returned, and counting begins anew. Only
    /// the measured port is counted.
    pub fn chunk_sent(
        &mut self,
        port: u16,
        len: usize,
        send_us: u128,
        window_ns: u128,
    ) -> (r: Option<StreamStats>)
        requires
            port == MEASURED_PORT ==> old(self).has_room(len, send_us),
        ensures
            port != MEASURED_PORT ==> *final(self) == *old(self) && r is None,
            port == MEASURED_PORT && window_ns < REPORT_WINDOW_NS ==> *final(self) == old(
                self,
            ).with_chunk(len, send_us) && r is None,
            port == MEASURED_PORT && window_ns >= REPORT_WINDOW_NS ==> r == Some(
                old(self).with_chunk(len, send_us),
            ) && *final(self) == (StreamStats { bytes: 0, chunks: 0, send_us: 0 }),
            r matches Some(report) ==> report.chunks > 0,
            port == MEASURED_PORT ==> {
                let counted = match r {
                    Some(report) => report,
                    None => *final(self),
                };
                &&& counted.bytes == old(self).bytes + len
                &&& counted.chunks == old(self).chunks + 1
                &&& counted.send_us == old(self).send_us + send_us
                &&& r is Some <==> window_ns >= 3 * 1_000_000_000
            },
    {
        if port != MEASURED_PORT {
            return None;
        }
        self.bytes = self.bytes + len as u64;
        self.chunks = self.chunks + 1;
        self.send_us = self.send_us + send_us;
        if window_ns >= REPORT_WINDOW_NS {
            let report = *self;
            *self = StreamStats::new();
            Some(report)
        } else {
            None
        }
    }
}

// ----- Laws -----

/// The byte strings that a task sends on in the course of `events`, where `action` says what follows
/// from an event. Nothing follows once the task has ended.
pub open spec fn sent_on(
    action: spec_fn(TaskEvent<Seq<u8>, Seq<char>>) -> Action<Seq<Seq<u8>>>,
    events: Seq<TaskEvent<Seq<u8>, Seq<char>>>,
) -> Seq<Seq<u8>>
    decreases events.len(),
{
    if events.len() == 0 {
        Seq::empty()
    } else {
        match action(events[0]) {
            Action::Send(l) => l + sent_on(action, events.drop_first()),
            Action::Wait => sent_on(action, events.drop_first()),
            Action::End => Seq::empty(),
        }
    }
}

/// As long as nothing goes wrong a bridge client's binary messages all reach the device, unchanged
/// and in order, and nothing else does.
pub proof fn law_bridge_forwards_binary_messages(events: Seq<TaskEvent<Seq<u8>, Seq<char>>>)
    requires
        forall|k: int|
            0 <= k < events.len() ==> !((#[trigger] events[k]) matches TaskEvent::Client(WsEvent::Failed))
                && !(events[k] matches TaskEvent::Client(WsEvent::Ended)) && events[k] != TaskEvent::<
                Seq<u8>,
                Seq<char>,
            >::Sent(false),
    ensures
        sent_on(|e: TaskEvent<Seq<u8>, Seq<char>>| bridge_client_action(e), events) == events.filter_map(
            |e: TaskEvent<Seq<u8>, Seq<char>>|
                match e {
                    TaskEvent::Client(WsEvent::Binary(b)) => Some(b),
                    _ => None::<Seq<u8>>,
                },
        ),
    decreases events.len(),
{
    let f = |e: TaskEvent<Seq<u8>, Seq<char>>|
        match e {
            TaskEvent::Client(WsEvent::Binary(b)) => Some(b),
            _ => None::<Seq<u8>>,
        };
    if events.len() > 0 {
        let rest = events.drop_first();
        assert forall|k: int| 0 <= k < rest.len() implies !((#[trigger] rest[k]) matches TaskEvent::Client(
            WsEvent::Failed,
        )) && !(rest[k] matches TaskEvent::Client(WsEvent::Ended)) && rest[k] != TaskEvent::<
            Seq<u8>,
            Seq<char>,
        >::Sent(false) by {
            assert(rest[k] == events[k + 1]);
        }
        law_bridge_forwards_binary_messages(rest);
        lemma_filter_map_first(events, f);
    }
}

/// What a partial map keeps of a sequence, the first entry told apart from the rest.
pub proof fn lemma_filter_map_first<A, B>(s: Seq<A>, f: spec_fn(A) -> Option<B>)
    requires
        s.len() > 0,
    ensures
        s.filter_map(f) == (match f(s[0]) {
            Some(b) => seq![b],
            None => Seq::empty(),
        }) + s.drop_first().filter_map(f),
    decreases s.len(),
{
    reveal(Seq::filter_map);
    if s.len() == 1 {
        assert(s.drop_last() =~= Seq::empty());
        assert(s.drop_first() =~= Seq::empty());
        assert(Seq::<A>::empty().filter_map(f) =~= Seq::empty());
    } else {
        lemma_filter_map_first(s.drop_last(), f);
        assert(s.drop_last().drop_first() =~= s.drop_first().drop_last());
        assert(s.drop_first().last() == s.last());
    }
}

/// A task that reads a connection or empties a queue makes nothing up: what it sends on are, in
/// order, the bytes that it was handed first.
pub proof fn law_relay_is_faithful(events: Seq<TaskEvent<Seq<u8>, Seq<char>>>)
    ensures
        sent_on(|e: TaskEvent<Seq<u8>, Seq<char>>| reader_action(e), events).is_prefix_of(
            events.filter_map(|e: TaskEvent<Seq<u8>, Seq<char>>| read_bytes(e)),
        ),
        sent_on(|e: TaskEvent<Seq<u8>, Seq<char>>| queue_action(e), events).is_prefix_of(
            events.filter_map(|e: TaskEvent<Seq<u8>, Seq<char>>| queued_bytes(e)),
        ),
    decreases events.len(),
{
    if events.len() > 0 {
        law_relay_is_faithful(events.drop_first());
        lemma_filter_map_first(events, |e: TaskEvent<Seq<u8>, Seq<char>>| read_bytes(e));
        lemma_filter_map_first(events, |e: TaskEvent<Seq<u8>, Seq<char>>| queued_bytes(e));
    }
}

/// Whether a task goes on through the first `n` of `events` and ends at the next, if there is one.
pub open spec fn ends_after(
    action: spec_fn(TaskEvent<Seq<u8>, Seq<char>>) -> Action<Seq<Seq<u8>>>,
    events: Seq<TaskEvent<Seq<u8>, Seq<char>>>,
    n: int,
) -> bool {
    &&& 0 <= n <= events.len()
    &&& forall|k: int| 0 <= k < n ==> !(action(#[trigger] events[k]) is End)
    &&& n < events.len() ==> action(events[n]) is End
}

proof fn lemma_all_is_sent_on(
    action: spec_fn(TaskEvent<Seq<u8>, Seq<char>>) -> Action<Seq<Seq<u8>>>,
    handed: spec_fn(TaskEvent<Seq<u8>, Seq<char>>) -> Option<Seq<u8>>,
    events: Seq<TaskEvent<Seq<u8>, Seq<char>>>,
    n: int,
)
    requires
        ends_after(action, events, n),
        forall|e: TaskEvent<Seq<u8>, Seq<char>>| #[trigger]
            action(e) is End || action(e) == (match handed(e) {
                Some(b) => Action::Send(seq![b]),
                None => Action::Wait,
            }),
    ensures
        sent_on(action, events) == events.take(n).filter_map(handed),
    decreases events.len(),
{
    if n > 0 {
        let rest = events.drop_first();
        assert(!(action(events[0]) is End));
        assert(ends_after(action, rest, n - 1)) by {
            assert forall|k: int| 0 <= k < n - 1 implies !(action(#[trigger] rest[k]) is End) by {
                assert(rest[k] == events[k + 1]);
            }
        }
        lemma_all_is_sent_on(action, handed, rest, n - 1);
        lemma_filter_map_first(events.take(n), handed);
        assert(events.take(n).drop_first() =~= rest.take(n - 1));
        assert(sent_on(action, events) =~= events.take(n).filter_map(handed));
    } else {
        reveal(Seq::filter_map);
        assert(events.take(0) =~= Seq::empty());
    }
}

/// A task that reads a connection loses nothing: until it ends, it sends on all the bytes that were
/// read, in order. It goes on through every read that returns bytes and every sending that succeeds.
pub proof fn law_reader_sends_all_bytes_on(events: Seq<TaskEvent<Seq<u8>, Seq<char>>>, n: int)
    requires
        ends_after(|e: TaskEvent<Seq<u8>, Seq<char>>| reader_action(e), events, n),
    ensures
        sent_on(|e: TaskEvent<Seq<u8>, Seq<char>>| reader_action(e), events) == events.take(n).filter_map(
            |e: TaskEvent<Seq<u8>, Seq<char>>| read_bytes(e),
        ),
{
    lemma_all_is_sent_on(
        |e: TaskEvent<Seq<u8>, Seq<char>>| reader_action(e),
        |e: TaskEvent<Seq<u8>, Seq<char>>| read_bytes(e),
        events,
        n,
    );
}

/// Where every event is a read that returned bytes or a sending that succeeded, all the bytes that were
/// read have been sent on, in order.
pub proof fn law_all_that_is_read_is_sent_on(events: Seq<TaskEvent<Seq<u8>, Seq<char>>>)
    requires
        forall|k: int|
            0 <= k < events.len() ==> ((#[trigger] events[k]) matches TaskEvent::Read(Some(b)) && b.len() > 0)
                || events[k] == TaskEvent::<Seq<u8>, Seq<char>>::Sent(true),
    ensures
        sent_on(|e: TaskEvent<Seq<u8>, Seq<char>>| reader_action(e), events) == events.filter_map(
            |e: TaskEvent<Seq<u8>, Seq<char>>| read_bytes(e),
        ),
{
    let n = events.len() as int;
    assert(events.take(n) =~= events);
    law_reader_sends_all_bytes_on(events, n);
}

/// A task that empties a queue loses nothing: until it ends, it sends on all the entries that it was
/// handed, in order. It goes on through every entry and every sending that succeeds.
pub proof fn law_queue_is_sent_on_whole(events: Seq<TaskEvent<Seq<u8>, Seq<char>>>, n: int)
    requires
        ends_after(|e: TaskEvent<Seq<u8>, Seq<char>>| queue_action(e), events, n),
    ensures
        sent_on(|e: TaskEvent<Seq<u8>, Seq<char>>| queue_action(e), events) == events.take(n).filter_map(
            |e: TaskEvent<Seq<u8>, Seq<char>>| queued_bytes(e),
        ),
{
    lemma_all_is_sent_on(
        |e: TaskEvent<Seq<u8>, Seq<char>>| queue_action(e),
        |e: TaskEvent<Seq<u8>, Seq<char>>| queued_bytes(e),
        events,
        n,
    );
}

/// Where every event is an entry of the queue or a sending that succeeded, all the entries have been
/// sent on, in order.
pub proof fn law_all_that_is_queued_is_sent_on(events: Seq<TaskEvent<Seq<u8>, Seq<char>>>)
    requires
        forall|k: int|
            0 <= k < events.len() ==> ((#[trigger] events[k]) matches TaskEvent::Queue(Some(_))) || events[k]
                == TaskEvent::<Seq<u8>, Seq<char>>::Sent(true),
    ensures
        sent_on(|e: TaskEvent<Seq<u8>, Seq<char>>| queue_action(e), events) == events.filter_map(
            |e: TaskEvent<Seq<u8>, Seq<char>>| queued_bytes(e),
        ),
{
    let n = events.len() as int;
    assert(events.take(n) =~= events);
    law_queue_is_sent_on_whole(events, n);
}

/// The bytes of a read.
pub open spec fn read_bytes(event: TaskEvent<Seq<u8>, Seq<char>>) -> Option<Seq<u8>> {
    match event {
        TaskEvent::Read(b) => b,
        _ => None,
    }
}

/// The bytes of a queue's entry.
pub open spec fn queued_bytes(event: TaskEvent<Seq<u8>, Seq<char>>) -> Option<Seq<u8>> {
    match event {
        TaskEvent::Queue(b) => b,
        _ => None,
    }
}

/// The client of a video stream has no way to send anything to the device.
pub proof fn law_stream_client_sends_nothing(events: Seq<TaskEvent<Seq<u8>, Seq<char>>>)
    ensures
        sent_on(|e: TaskEvent<Seq<u8>, Seq<char>>| stream_client_action(e), events) == Seq::<
            Seq<u8>,
        >::empty(),
    decreases events.len(),
{
    if events.len() > 0 {
        law_stream_client_sends_nothing(events.drop_first());
    }
}

/// When each of the tasks ends, and when it waits. The task that reads a bridge client ends when the client
/// is gone or fails or when it cannot send; a task that empties a queue or reads a connection ends when
/// that has come to its end, when it cannot send or when the session is cancelled.
pub proof fn law_tasks_end_exactly_then(event: TaskEvent<Seq<u8>, Seq<char>>)
    ensures
        bridge_client_action(event) is End <==> event == TaskEvent::<Seq<u8>, Seq<char>>::Client(WsEvent::Failed)
            || event == TaskEvent::<Seq<u8>, Seq<char>>::Client(WsEvent::Ended) || event == TaskEvent::<
            Seq<u8>,
            Seq<char>,
        >::Sent(false),
        bridge_client_action(event) is Send <==> (event matches TaskEvent::Client(WsEvent::Binary(_))),
        queue_action(event) is End <==> event is Cancelled || event == TaskEvent::<Seq<u8>, Seq<char>>::Queue(
            None,
        ) || event == TaskEvent::<Seq<u8>, Seq<char>>::Sent(false),
        queue_action(event) is Send <==> (event matches TaskEvent::Queue(Some(_))),
        reader_action(event) is End <==> event is Cancelled || event == TaskEvent::<Seq<u8>, Seq<char>>::Read(
            None,
        ) || (event matches TaskEvent::Read(Some(b)) && b.len() == 0) || event == TaskEvent::<
            Seq<u8>,
            Seq<char>,
        >::Sent(false),
        reader_action(event) is Send <==> (event matches TaskEvent::Read(Some(b)) && b.len() > 0),
        stream_client_action(event) is End <==> event is Cancelled || event == TaskEvent::<
            Seq<u8>,
            Seq<char>,
        >::Client(WsEvent::Close) || event == TaskEvent::<Seq<u8>, Seq<char>>::Client(WsEvent::Failed) || event
            == TaskEvent::<Seq<u8>, Seq<char>>::Client(WsEvent::Ended),
        !(stream_client_action(event) is Send),
{
}

/// What a task sends on of one event is what it was handed, and nothing else.
pub proof fn law_what_is_handed_over_goes_on_unchanged(b: Seq<u8>)
    ensures
        bridge_client_action(TaskEvent::Client(WsEvent::Binary(b))) == Action::Send(seq![b]),
        queue_action(TaskEvent::Queue(Some(b))) == Action::Send(seq![b]),
        b.len() > 0 ==> reader_action(TaskEvent::Read(Some(b))) == Action::Send(seq![b]),
{
}

/// The totals of a stream after chunks of these lengths and times to send.
pub open spec fn totals(start: StreamStats, chunks: Seq<(usize, u128)>) -> StreamStats
    decreases chunks.len(),
{
    if chunks.len() == 0 {
        start
    } else {
        totals(start, chunks.drop_last()).with_chunk(chunks.last().0, chunks.last().1)
    }
}

/// The sum of these numbers.
pub open spec fn sum(s: Seq<int>) -> int
    decreases s.len(),
{
    if s.len() == 0 {
        0
    } else {
        sum(s.drop_last()) + s.last()
    }
}

/// Nothing that a stream carries goes uncounted: the totals are the number of the chunks, the sum of their
/// lengths and the sum of their times, where these are in range.
pub proof fn law_totals_are_sums(chunks: Seq<(usize, u128)>)
    requires
        sum(chunks.map_values(|c: (usize, u128)| c.0 as int)) <= u64::MAX,
        sum(chunks.map_values(|c: (usize, u128)| c.1 as int)) <= u128::MAX,
        chunks.len() <= u64::MAX,
    ensures
        ({
            let all = totals(StreamStats { bytes: 0, chunks: 0, send_us: 0 }, chunks);
            &&& all.bytes == sum(chunks.map_values(|c: (usize, u128)| c.0 as int))
            &&& all.chunks == chunks.len()
            &&& all.send_us == sum(chunks.map_values(|c: (usize, u128)| c.1 as int))
        }),
    decreases chunks.len(),
{
    if chunks.len() > 0 {
        let rest = chunks.drop_last();
        let lens = chunks.map_values(|c: (usize, u128)| c.0 as int);
        let times = chunks.map_values(|c: (usize, u128)| c.1 as int);
        assert(lens.drop_last() =~= rest.map_values(|c: (usize, u128)| c.0 as int));
        assert(times.drop_last() =~= rest.map_values(|c: (usize, u128)| c.1 as int));
        law_totals_are_sums(rest);
    }
}

/// A chunk has room exactly if none of the three totals leaves its range.
pub proof fn law_room_is_what_the_range_leaves(stats: StreamStats, len: usize, send_us: u128)
    ensures
        stats.has_room(len, send_us) <==> stats.bytes + len < 0x1_0000_0000_0000_0000 && stats.chunks + 1
            < 0x1_0000_0000_0000_0000 && stats.send_us + send_us < 0x1_0000_0000_0000_0000_0000_0000_0000_0000,
{
}

} // verus!
