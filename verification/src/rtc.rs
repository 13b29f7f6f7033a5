//! WebRTC sessions: who watches which device, how an offer is answered, and how frames go out.

use vstd::prelude::*;
use vstd::string::StringExecFns;

use crate::handlers::{ErrorReply, ReplyView, device_not_found};
use crate::profile::{chosen_profile, select_ios_rtc_profile};
use crate::text::{opt_str, opt_text, text_eq};
use crate::relay::lemma_filter_map_first;
use crate::zxh::ZxhFrame;

verus! {

// ----- Sessions -----

/// A session, with what cancels it.
pub struct RtcSession<T> {
    id: String,
    cancel: T,
}

/// The running sessions, at most one for each device. `T` cancels a session.
pub struct RtcSessions<T> {
    entries: Vec<RtcSession<T>>,
}

/// The value of `k` in `m`, if it has one.
pub open spec fn value_of<K, V>(m: Map<K, V>, k: K) -> Option<V> {
    if m.dom().contains(k) {
        Some(m[k])
    } else {
        None
    }
}

spec fn holds<T>(s: Seq<RtcSession<T>>, id: Seq<char>, i: int) -> bool {
    0 <= i < s.len() && s[i].id@ == id
}

spec fn distinct<T>(s: Seq<RtcSession<T>>) -> bool {
    forall|i: int, j: int| 0 <= i < j < s.len() ==> (#[trigger] s[i]).id@ != (#[trigger] s[j]).id@
}

spec fn session_map<T>(s: Seq<RtcSession<T>>) -> Map<Seq<char>, T> {
    Map::new(
        |id: Seq<char>| exists|i: int| holds(s, id, i),
        |id: Seq<char>| s[choose|i: int| holds(s, id, i)].cancel,
    )
}

proof fn lemma_session_value<T>(s: Seq<RtcSession<T>>, i: int)
    requires
        distinct(s),
        0 <= i < s.len(),
    ensures
        session_map(s).dom().contains(s[i].id@),
        session_map(s)[s[i].id@] == s[i].cancel,
{
    assert(holds(s, s[i].id@, i));
    let j = choose|j: int| holds(s, s[i].id@, j);
    assert(holds(s, s[i].id@, j));
    if j < i {
        assert(s[j].id@ != s[i].id@);
    } else if i < j {
        assert(s[i].id@ != s[j].id@);
    }
}

proof fn lemma_session_removed<T>(s: Seq<RtcSession<T>>, i: int)
    requires
        distinct(s),
        0 <= i < s.len(),
    ensures
        distinct(s.remove(i)),
        session_map(s.remove(i)) == session_map(s).remove(s[i].id@),
{
    let t = s.remove(i);
    assert forall|a: int, b: int| 0 <= a < b < t.len() implies (#[trigger] t[a]).id@ != (#[trigger] t[b]).id@ by {
        let x = if a < i {
            a
        } else {
            a + 1
        };
        let y = if b < i {
            b
        } else {
            b + 1
        };
        assert(t[a] == s[x] && t[b] == s[y]);
    }
    assert forall|id: Seq<char>|
        session_map(t).dom().contains(id) <==> session_map(s).remove(s[i].id@).dom().contains(id) by {
        if session_map(t).dom().contains(id) {
            let a = choose|a: int| holds(t, id, a);
            let x = if a < i {
                a
            } else {
                a + 1
            };
            assert(holds(s, id, x));
            if x < i {
                assert(s[x].id@ != s[i].id@);
            } else {
                assert(s[i].id@ != s[x].id@);
            }
        }
        if session_map(s).remove(s[i].id@).dom().contains(id) {
            let x = choose|x: int| holds(s, id, x);
            let a = if x < i {
                x
            } else {
                x - 1
            };
            assert(t[a] == s[x]);
            assert(holds(t, id, a));
        }
    }
    assert forall|id: Seq<char>| session_map(t).dom().contains(id) implies session_map(t)[id]
        == session_map(s).remove(s[i].id@)[id] by {
        let a = choose|a: int| holds(t, id, a);
        assert(holds(t, id, a));
        let x = if a < i {
            a
        } else {
            a + 1
        };
        assert(t[a] == s[x]);
        lemma_session_value(t, a);
        lemma_session_value(s, x);
    }
    assert(session_map(t) =~= session_map(s).remove(s[i].id@));
}

proof fn lemma_session_added<T>(s: Seq<RtcSession<T>>, e: RtcSession<T>)
    requires
        distinct(s),
        !session_map(s).dom().contains(e.id@),
    ensures
        distinct(s.push(e)),
        session_map(s.push(e)) == session_map(s).insert(e.id@, e.cancel),
{
    let t = s.push(e);
    assert forall|a: int, b: int| 0 <= a < b < t.len() implies (#[trigger] t[a]).id@ != (#[trigger] t[b]).id@ by {
        if b == s.len() {
            if t[a].id@ == e.id@ {
                assert(holds(s, e.id@, a));
            }
        } else {
            assert(t[a] == s[a] && t[b] == s[b]);
        }
    }
    assert forall|id: Seq<char>|
        session_map(t).dom().contains(id) <==> session_map(s).insert(e.id@, e.cancel).dom().contains(id) by {
        if session_map(t).dom().contains(id) {
            let a = choose|a: int| holds(t, id, a);
            if a < s.len() {
                assert(holds(s, id, a));
            }
        }
        if session_map(s).dom().contains(id) {
            let a = choose|a: int| holds(s, id, a);
            assert(t[a] == s[a]);
            assert(holds(t, id, a));
        }
        if id == e.id@ {
            assert(holds(t, id, s.len() as int));
        }
    }
    assert forall|id: Seq<char>| session_map(t).dom().contains(id) implies session_map(t)[id]
        == session_map(s).insert(e.id@, e.cancel)[id] by {
        let a = choose|a: int| holds(t, id, a);
        assert(holds(t, id, a));
        lemma_session_value(t, a);
        if a < s.len() {
            assert(t[a] == s[a]);
            lemma_session_value(s, a);
        }
    }
    assert(session_map(t) =~= session_map(s).insert(e.id@, e.cancel));
}

/// Where the session of device `id` stands, or the number of sessions.
fn position<T>(entries: &Vec<RtcSession<T>>, id: &str) -> (r: usize)
    ensures
        r <= entries@.len(),
        r < entries@.len() ==> entries@[r as int].id@ == id@,
        r == entries@.len() ==> !session_map(entries@).dom().contains(id@),
{
    let mut i: usize = 0;
    while i < entries.len()
        invariant
            i <= entries@.len(),
            forall|k: int| 0 <= k < i ==> (#[trigger] entries@[k]).id@ != id@,
        decreases entries@.len() - i,
    {
        if text_eq(entries[i].id.as_str(), id) {
            return i;
        }
        i = i + 1;
    }
    i
}

impl<T> View for RtcSessions<T> {
    type V = Map<Seq<char>, T>;

    closed spec fn view(&self) -> Map<Seq<char>, T> {
        session_map(self.entries@)
    }
}

impl<T> RtcSessions<T> {
    #[verifier::type_invariant]
    spec fn well_formed(self) -> bool {
        distinct(self.entries@)
    }

    /// No sessions.
    pub fn new() -> (r: Self)
        ensures
            r@ == Map::<Seq<char>, T>::empty(),
    {
        let r = RtcSessions { entries: Vec::new() };
        assert(r@ =~= Map::<Seq<char>, T>::empty());
        r
    }

    /// Ends the bookkeeping of the session of device `id`, and returns what cancels it.
    pub fn remove(&mut self, id: &str) -> (r: Option<T>)
        ensures
            r == value_of(old(self)@, id@),
            final(self)@ == old(self)@.remove(id@),
    {
        proof {
            use_type_invariant(&*self);
        }
        let mut entries: Vec<RtcSession<T>> = Vec::new();
        std::mem::swap(&mut entries, &mut self.entries);
        let i: usize = position(&entries, id);
        if i < entries.len() {
            proof {
                lemma_session_value(entries@, i as int);
                lemma_session_removed(entries@, i as int);
            }
            let e = entries.remove(i);
            self.entries = entries;
            Some(e.cancel)
        } else {
            self.entries = entries;
            assert(self@ =~= old(self)@.remove(id@));
            None
        }
    }

    /// Books the session of device `id`, and returns what cancels the one that it replaces.
    pub fn insert(&mut self, id: String, cancel: T) -> (r: Option<T>)
        ensures
            r == value_of(old(self)@, id@),
            final(self)@ == old(self)@.insert(id@, cancel),
    {
        let previous = self.remove(id.as_str());
        proof {
            use_type_invariant(&*self);
        }
        let mut entries: Vec<RtcSession<T>> = Vec::new();
        std::mem::swap(&mut entries, &mut self.entries);
        let entry = RtcSession { id, cancel };
        proof {
            lemma_session_added(entries@, entry);
        }
        entries.push(entry);
        self.entries = entries;
        assert(self@ =~= old(self)@.insert(id@, cancel));
        previous
    }
}

// ----- Offers -----

/// What an offer that is taken up leads to.
#[derive(Debug)]
pub struct OfferPlan {
    pub ip: String,
    pub profile: String,
    pub port: u16,
    pub force_relay: bool,
}

/// What a plan holds.
pub struct PlanView {
    pub ip: Seq<char>,
    pub profile: Seq<char>,
    pub port: u16,
    pub force_relay: bool,
}

impl View for OfferPlan {
    type V = PlanView;

    open spec fn view(&self) -> PlanView {
        PlanView { ip: self.ip@, profile: self.profile@, port: self.port, force_relay: self.force_relay }
    }
}

/// The answer to an offer: `S` is a session description.
#[derive(Debug)]
pub struct IosRtcOfferResponse<S> {
    pub sdp: S,
    pub profile: String,
    pub port: u16,
}

/// The plan for an offer to watch the device at `ip`.
pub open spec fn offer_plan(
    ip: Seq<char>,
    profile: Option<Seq<char>>,
    ice_transport_policy: Option<Seq<char>>,
) -> PlanView {
    PlanView {
        ip,
        profile: chosen_profile(ip, profile).name(),
        port: chosen_profile(ip, profile).port(),
        force_relay: ice_transport_policy == Some("relay"@),
    }
}

/// Takes up an offer to watch device `id`, whose address is `None` if it is not there. The session is
/// booked under `cancel`; what is returned beside the plan cancels the session that it replaces.
pub fn ios_rtc_offer_handler<T>(
    sessions: &mut RtcSessions<T>,
    id: String,
    device_ip: Option<String>,
    profile: Option<&str>,
    ice_transport_policy: Option<&str>,
    cancel: T,
) -> (r: Result<(OfferPlan, Option<T>), ErrorReply>)
    ensures
        match opt_text(device_ip) {
            Some(ip) => {
                &&& r matches Ok((plan, replaced))
                &&& plan@ == offer_plan(ip, opt_str(profile), opt_str(ice_transport_policy))
                &&& replaced == value_of(old(sessions)@, id@)
                &&& final(sessions)@ == old(sessions)@.insert(id@, cancel)
                &&& plan.ip@ == device_ip->0@
                &&& plan.force_relay <==> (ice_transport_policy matches Some(policy) && policy@ == "relay"@)
            },
            None => {
                &&& r matches Err(e)
                &&& e@ == device_not_found()
                &&& final(sessions)@ == old(sessions)@
            },
        },
{
    let ip = match device_ip {
        Some(ip) => ip,
        None => {
            return Err(ErrorReply { status: 404, message: "device not found".to_owned() });
        },
    };
    let (name, port) = select_ios_rtc_profile(ip.as_str(), profile);
    let replaced = sessions.insert(id, cancel);
    let force_relay = match ice_transport_policy {
        Some(policy) => text_eq(policy, "relay"),
        None => false,
    };
    Ok((OfferPlan { ip, profile: name, port, force_relay }, replaced))
}

/// Answers an offer that was taken up, once the session description is there or the attempt to make
/// one has failed with a message. A failure ends the session of the device; what is returned beside
/// the answer cancels it.
pub fn finish_rtc_offer<T, S>(
    sessions: &mut RtcSessions<T>,
    id: &str,
    plan: OfferPlan,
    answer: Result<S, String>,
) -> (r: (Result<IosRtcOfferResponse<S>, ErrorReply>, Option<T>))
    ensures
        match answer {
            Ok(sdp) => {
                &&& r.0 matches Ok(response)
                &&& response.sdp == sdp
                &&& response.profile@ == plan@.profile
                &&& response.port == plan@.port
                &&& response.profile@ == plan.profile@ && response.port == plan.port
                &&& r.1 is None
                &&& final(sessions)@ == old(sessions)@
            },
            Err(message) => {
                &&& r.0 matches Err(e)
                &&& e@ == (ReplyView { status: 502, message: message@ })
                &&& r.1 == value_of(old(sessions)@, id@)
                &&& final(sessions)@ == old(sessions)@.remove(id@)
            },
        },
{
    match answer {
        Ok(sdp) => (Ok(IosRtcOfferResponse { sdp, profile: plan.profile, port: plan.port }), None),
        Err(message) => {
            let cancel = sessions.remove(id);
            (Err(ErrorReply { status: 502, message }), cancel)
        },
    }
}

/// Closes the session of device `id`. The answer has the status that is returned, and no content;
/// what is returned beside it cancels the session.
pub fn ios_rtc_close_handler<T>(sessions: &mut RtcSessions<T>, id: &str) -> (r: (u16, Option<T>))
    ensures
        r.0 == 204,
        r.1 == value_of(old(sessions)@, id@),
        final(sessions)@ == old(sessions)@.remove(id@),
{
    let cancel = sessions.remove(id);
    (204, cancel)
}

// ----- Answering -----

/// The steps in which an offer is answered, in their order.
#[derive(Clone, Copy, Debug, PartialEq, Eq, Structural)]
pub enum AnswerStep {
    RegisterCodecs,
    RegisterInterceptors,
    NewPeerConnection,
    AddVideoTrack,
    SetRemoteDescription,
    CreateAnswer,
    SetLocalDescription,
    /// Waits for the connection candidates, but not for long. It does not matter how this ends.
    GatherCandidates,
    ReadLocalDescription,
}

/// What follows from the outcome of a step.
#[derive(Debug)]
pub enum AnswerNext<M> {
    Do(AnswerStep),
    Done,
    Fail(M),
}

impl View for AnswerNext<String> {
    type V = AnswerNext<Seq<char>>;

    open spec fn view(&self) -> AnswerNext<Seq<char>> {
        match *self {
            AnswerNext::Do(step) => AnswerNext::Do(step),
            AnswerNext::Done => AnswerNext::Done,
            AnswerNext::Fail(m) => AnswerNext::Fail(m@),
        }
    }
}

/// The rate of the video clock, in ticks a second.
pub const VIDEO_CLOCK_RATE: u32 = 90000;

/// How long the connection candidates are waited for, in seconds.
pub const GATHER_SECONDS: u64 = 3;

/// How long a device may take to accept a connection, in seconds.
pub const CONNECT_SECONDS: u64 = 2;

/// The message of a step that failed for the reason `e`.
pub open spec fn answer_failure(step: AnswerStep, e: Seq<char>) -> Seq<char> {
    match step {
        AnswerStep::RegisterCodecs => "register codecs: "@ + e,
        AnswerStep::RegisterInterceptors => "register interceptors: "@ + e,
        AnswerStep::NewPeerConnection => "new peer connection: "@ + e,
        AnswerStep::AddVideoTrack => "add video track: "@ + e,
        AnswerStep::SetRemoteDescription => "set remote description: "@ + e,
        AnswerStep::CreateAnswer => "create answer: "@ + e,
        AnswerStep::SetLocalDescription => "set local description: "@ + e,
        AnswerStep::GatherCandidates => Seq::empty(),
        AnswerStep::ReadLocalDescription => "missing local description"@,
    }
}

/// What follows when a step succeeds.
pub open spec fn after_step(step: AnswerStep) -> AnswerNext<Seq<char>> {
    match step {
        AnswerStep::RegisterCodecs => AnswerNext::Do(AnswerStep::RegisterInterceptors),
        AnswerStep::RegisterInterceptors => AnswerNext::Do(AnswerStep::NewPeerConnection),
        AnswerStep::NewPeerConnection => AnswerNext::Do(AnswerStep::AddVideoTrack),
        AnswerStep::AddVideoTrack => AnswerNext::Do(AnswerStep::SetRemoteDescription),
        AnswerStep::SetRemoteDescription => AnswerNext::Do(AnswerStep::CreateAnswer),
        AnswerStep::CreateAnswer => AnswerNext::Do(AnswerStep::SetLocalDescription),
        AnswerStep::SetLocalDescription => AnswerNext::Do(AnswerStep::GatherCandidates),
        AnswerStep::GatherCandidates => AnswerNext::Do(AnswerStep::ReadLocalDescription),
        AnswerStep::ReadLocalDescription => AnswerNext::Done,
    }
}

/// What follows from a step, which succeeded if `failure` is `None`.
pub open spec fn answer_next(step: AnswerStep, failure: Option<Seq<char>>) -> AnswerNext<Seq<char>> {
    match failure {
        Some(e) => if step == AnswerStep::GatherCandidates {
            after_step(step)
        } else {
            AnswerNext::Fail(answer_failure(step, e))
        },
        None => after_step(step),
    }
}

fn failed(prefix: &str, e: &str) -> (r: AnswerNext<String>)
    ensures
        r@ == AnswerNext::Fail(prefix@ + e@),
{
    let mut message = prefix.to_owned();
    message.append(e);
    AnswerNext::Fail(message)
}

impl AnswerStep {
    /// What follows from this step, which succeeded if `failure` is `None`.
    pub fn next(&self, failure: Option<String>) -> (r: AnswerNext<String>)
        ensures
            r@ == answer_next(*self, opt_text(failure)),
    {
        match failure {
            None => match self {
                AnswerStep::RegisterCodecs => AnswerNext::Do(AnswerStep::RegisterInterceptors),
                AnswerStep::RegisterInterceptors => AnswerNext::Do(AnswerStep::NewPeerConnection),
                AnswerStep::NewPeerConnection => AnswerNext::Do(AnswerStep::AddVideoTrack),
                AnswerStep::AddVideoTrack => AnswerNext::Do(AnswerStep::SetRemoteDescription),
                AnswerStep::SetRemoteDescription => AnswerNext::Do(AnswerStep::CreateAnswer),
                AnswerStep::CreateAnswer => AnswerNext::Do(AnswerStep::SetLocalDescription),
                AnswerStep::SetLocalDescription => AnswerNext::Do(AnswerStep::GatherCandidates),
                AnswerStep::GatherCandidates => AnswerNext::Do(AnswerStep::ReadLocalDescription),
                AnswerStep::ReadLocalDescription => AnswerNext::Done,
            },
            Some(e) => match self {
                AnswerStep::RegisterCodecs => failed("register codecs: ", e.as_str()),
                AnswerStep::RegisterInterceptors => failed("register interceptors: ", e.as_str()),
                AnswerStep::NewPeerConnection => failed("new peer connection: ", e.as_str()),
                AnswerStep::AddVideoTrack => failed("add video track: ", e.as_str()),
                AnswerStep::SetRemoteDescription => failed("set remote description: ", e.as_str()),
                AnswerStep::CreateAnswer => failed("create answer: ", e.as_str()),
                AnswerStep::SetLocalDescription => failed("set local description: ", e.as_str()),
                AnswerStep::GatherCandidates => AnswerNext::Do(AnswerStep::ReadLocalDescription),
                AnswerStep::ReadLocalDescription => AnswerNext::Fail(
                    "missing local description".to_owned(),
                ),
            },
        }
    }
}

/// The states of a peer connection.
#[derive(Clone, Copy, Debug, PartialEq, Eq, Structural)]
pub enum PeerState {
    Unspecified,
    New,
    Connecting,
    Connected,
    Disconnected,
    Failed,
    Closed,
}

/// The states of a peer connection's transport.
#[derive(Clone, Copy, Debug, PartialEq, Eq, Structural)]
pub enum IceState {
    Unspecified,
    New,
    Checking,
    Connected,
    Completed,
    Disconnected,
    Failed,
    Closed,
}

/// Whether a peer connection that has come to `state` cancels its session.
pub fn peer_state_cancels(state: PeerState) -> (r: bool)
    ensures
        r == (state is Disconnected || state is Failed || state is Closed),
{
    matches!(state, PeerState::Disconnected | PeerState::Failed | PeerState::Closed)
}

/// Whether a transport that has come to `state` cancels its session.
pub fn ice_state_cancels(state: IceState) -> (r: bool)
    ensures
        r == (state is Disconnected || state is Failed || state is Closed),
{
    matches!(state, IceState::Disconnected | IceState::Failed | IceState::Closed)
}

// ----- Sending frames -----

/// What happens while frames are sent. Times are in nanoseconds, from any fixed moment on.
pub enum FrameEvent<F> {
    /// The device accepted a connection, or did not.
    Connected(bool),
    /// The session was cancelled.
    Cancelled,
    /// A frame arrived.
    Frame(F, u128),
    /// The device has no more frames.
    End,
    /// Reading a frame failed.
    Failed,
    /// The frame was sent, or could not be.
    Written(bool),
}

/// What to do next.
pub enum FrameAction<B> {
    /// Sends a payload. `observed_us` is the time since the last frame, in microseconds.
    Write { payload: B, observed_us: Option<u128> },
    /// Waits for the next event.
    Wait,
    /// Closes the peer connection and ends.
    Close,
}

impl View for FrameEvent<ZxhFrame> {
    type V = FrameEvent<Seq<u8>>;

    open spec fn view(&self) -> FrameEvent<Seq<u8>> {
        match *self {
            FrameEvent::Connected(ok) => FrameEvent::Connected(ok),
            FrameEvent::Cancelled => FrameEvent::Cancelled,
            FrameEvent::Frame(f, at) => FrameEvent::Frame(f@.payload, at),
            FrameEvent::End => FrameEvent::End,
            FrameEvent::Failed => FrameEvent::Failed,
            FrameEvent::Written(ok) => FrameEvent::Written(ok),
        }
    }
}

impl View for FrameAction<Vec<u8>> {
    type V = FrameAction<Seq<u8>>;

    open spec fn view(&self) -> FrameAction<Seq<u8>> {
        match *self {
            FrameAction::Write { payload, observed_us } => FrameAction::Write {
                payload: payload@,
                observed_us,
            },
            FrameAction::Wait => FrameAction::Wait,
            FrameAction::Close => FrameAction::Close,
        }
    }
}

/// The whole microseconds from `last` to `now`, none if the clock did not advance.
pub open spec fn micros_between(last: u128, now: u128) -> u128 {
    if now > last {
        ((now - last) / 1000) as u128
    } else {
        0
    }
}

/// What follows from an event, where the last frame arrived at `last`: the time of the last frame,
/// and what to do. A frame without a payload is passed over.
pub open spec fn frame_step(last: Option<u128>, event: FrameEvent<Seq<u8>>) -> (
    Option<u128>,
    FrameAction<Seq<u8>>,
) {
    match event {
        FrameEvent::Connected(ok) => (
            last,
            if ok {
                FrameAction::Wait
            } else {
                FrameAction::Close
            },
        ),
        FrameEvent::Cancelled => (last, FrameAction::Close),
        FrameEvent::Frame(payload, at) => if payload.len() == 0 {
            (last, FrameAction::Wait)
        } else {
            (
                Some(at),
                FrameAction::Write {
                    payload,
                    observed_us: match last {
                        Some(t) => Some(micros_between(t, at)),
                        None => None,
                    },
                },
            )
        },
        FrameEvent::End => (last, FrameAction::Close),
        FrameEvent::Failed => (last, FrameAction::Close),
        FrameEvent::Written(ok) => (
            last,
            if ok {
                FrameAction::Wait
            } else {
                FrameAction::Close
            },
        ),
    }
}

/// How long a frame is taken to last before an interval has been observed, in microseconds.
pub const FIRST_DURATION_US: u64 = 33_333;

/// The shortest interval between frames that is reckoned with, in microseconds.
pub const SHORTEST_INTERVAL_US: u64 = 30_000;

/// The longest interval between frames that is reckoned with, in microseconds.
pub const LONGEST_INTERVAL_US: u64 = 60_000;

/// The interval that is reckoned with where `observed_us` was observed.
pub open spec fn bounded_interval(observed_us: u128) -> int {
    if observed_us < SHORTEST_INTERVAL_US {
        SHORTEST_INTERVAL_US as int
    } else if observed_us > LONGEST_INTERVAL_US {
        LONGEST_INTERVAL_US as int
    } else {
        observed_us as int
    }
}

/// How far apart two numbers are.
pub open spec fn distance(a: int, b: int) -> int {
    if a < b {
        b - a
    } else {
        a - b
    }
}

/// The interval that is reckoned with is the one from 30 to 60 milliseconds that is nearest to what was
/// observed.
pub proof fn law_interval_is_the_nearest_in_range(observed_us: u128, other: int)
    requires
        30_000 <= other <= 60_000,
    ensures
        30_000 <= bounded_interval(observed_us) <= 60_000,
        distance(bounded_interval(observed_us), observed_us as int) <= distance(other, observed_us as int),
{
}

/// The interval that is reckoned with where `observed_us` was observed.
pub fn bounded_interval_us(observed_us: u128) -> (r: u64)
    ensures
        r == bounded_interval(observed_us),
        30_000 <= r <= 60_000,
        r == (if observed_us < SHORTEST_INTERVAL_US {
            SHORTEST_INTERVAL_US as int
        } else if observed_us > LONGEST_INTERVAL_US {
            LONGEST_INTERVAL_US as int
        } else {
            observed_us as int
        }),
{
    if observed_us < SHORTEST_INTERVAL_US as u128 {
        SHORTEST_INTERVAL_US
    } else if observed_us > LONGEST_INTERVAL_US as u128 {
        LONGEST_INTERVAL_US
    } else {
        observed_us as u64
    }
}

/// The sending of a device's frames to a peer.
#[derive(Debug)]
pub struct FramePump {
    /// When the last frame arrived.
    pub last_frame_at: Option<u128>,
}

impl FramePump {
    /// Before the first frame.
    pub fn new() -> (r: Self)
        ensures
            r.last_frame_at is None,
    {
        FramePump { last_frame_at: None }
    }

    /// What follows from an event.
    pub fn step(&mut self, event: FrameEvent<ZxhFrame>) -> (r: FrameAction<Vec<u8>>)
        ensures
            (final(self).last_frame_at, r@) == frame_step(old(self).last_frame_at, event@),
            match event {
                FrameEvent::Frame(frame, at) => if frame.payload@.len() > 0 {
                    &&& r matches FrameAction::Write { payload, observed_us }
                    &&& payload@ == frame.payload@
                    &&& observed_us is Some <==> old(self).last_frame_at is Some
                    &&& final(self).last_frame_at == Some(at)
                } else {
                    r is Wait && final(self).last_frame_at == old(self).last_frame_at
                },
                _ => !(r is Write) && final(self).last_frame_at == old(self).last_frame_at,
            },
    {
        match event {
            FrameEvent::Connected(ok) => if ok {
                FrameAction::Wait
            } else {
                FrameAction::Close
            },
            FrameEvent::Cancelled => FrameAction::Close,
            FrameEvent::Frame(frame, at) => {
                if frame.payload.len() == 0 {
                    return FrameAction::Wait;
                }
                let observed_us = match self.last_frame_at {
                    Some(last) => {
                        let us: u128 = if at > last {
                            (at - last) / 1000
                        } else {
                            0
                        };
                        Some(us)
                    },
                    None => None,
                };
                self.last_frame_at = Some(at);
                FrameAction::Write { payload: frame.payload, observed_us }
            },
            FrameEvent::End => FrameAction::Close,
            FrameEvent::Failed => FrameAction::Close,
            FrameEvent::Written(ok) => if ok {
                FrameAction::Wait
            } else {
                FrameAction::Close
            },
        }
    }
}

// ----- Laws -----

/// Where the answering of an offer stands after the steps with these outcomes.
pub open spec fn answering(step: AnswerStep, failures: Seq<Option<Seq<char>>>) -> AnswerNext<Seq<char>>
    decreases failures.len(),
{
    if failures.len() == 0 {
        AnswerNext::Do(step)
    } else {
        match answer_next(step, failures[0]) {
            AnswerNext::Do(next) => answering(next, failures.drop_first()),
            end => end,
        }
    }
}

/// An offer is answered exactly if each of the steps succeeds, but for the wait for the candidates.
pub proof fn law_answer_needs_every_step(failures: Seq<Option<Seq<char>>>)
    requires
        failures.len() == 9,
    ensures
        answering(AnswerStep::RegisterCodecs, failures) is Done <==> (forall|k: int|
            0 <= k < 9 && k != 7 ==> (#[trigger] failures[k]) is None),
        answering(AnswerStep::RegisterCodecs, failures) is Done || answering(
            AnswerStep::RegisterCodecs,
            failures,
        ) is Fail,
{
    reveal_with_fuel(answering, 10);
    assert((forall|k: int| 0 <= k < 9 && k != 7 ==> (#[trigger] failures[k]) is None) <==> (failures[0] is None
        && failures[1] is None && failures[2] is None && failures[3] is None && failures[4] is None
        && failures[5] is None && failures[6] is None && failures[8] is None));
}

/// The first step that fails decides the message, whatever would come later.
pub proof fn law_first_failure_is_reported(
    before: Seq<Option<Seq<char>>>,
    e: Seq<char>,
    later: Seq<Option<Seq<char>>>,
    start: AnswerStep,
    step: AnswerStep,
)
    requires
        forall|k: int| 0 <= k < before.len() ==> (#[trigger] before[k]) is None,
        answering(start, before) == AnswerNext::<Seq<char>>::Do(step),
        step != AnswerStep::GatherCandidates,
    ensures
        answering(start, before.push(Some(e)) + later) == AnswerNext::Fail(answer_failure(step, e)),
    decreases before.len(),
{
    let all = before.push(Some(e)) + later;
    if before.len() > 0 {
        assert(all[0] == before[0]);
        assert(all.drop_first() =~= before.drop_first().push(Some(e)) + later);
        match answer_next(start, before[0]) {
            AnswerNext::Do(next) => {
                law_first_failure_is_reported(before.drop_first(), e, later, next, step);
            },
            _ => {},
        }
    } else {
        assert(all[0] == Some(e));
    }
}

/// After an offer is taken up its session is the device's only one, and no other device is touched;
/// if answering it fails, or the session is closed, the device has none.
pub proof fn law_one_session_per_device<T>(sessions: Map<Seq<char>, T>, id: Seq<char>, cancel: T)
    ensures
        value_of(sessions.insert(id, cancel), id) == Some(cancel),
        value_of(sessions.insert(id, cancel).remove(id), id) is None,
        forall|other: Seq<char>| #![trigger value_of(sessions, other)]
            other != id ==> value_of(sessions.insert(id, cancel), other) == value_of(sessions, other)
                && value_of(sessions.insert(id, cancel).remove(id), other) == value_of(sessions, other),
{
}

/// Where the sending of frames stands after `events`, and whether it has closed the connection.
pub open spec fn sending(events: Seq<FrameEvent<Seq<u8>>>) -> (Option<u128>, bool)
    decreases events.len(),
{
    if events.len() == 0 {
        (None, false)
    } else {
        let (last, closed) = sending(events.drop_last());
        if closed {
            (last, true)
        } else {
            let (next, action) = frame_step(last, events.last());
            (next, action is Close)
        }
    }
}

/// The first frame has no time before it, and every later one has.
pub proof fn law_only_first_frame_has_no_interval(events: Seq<FrameEvent<Seq<u8>>>)
    ensures
        !sending(events).1 ==> (sending(events).0 is None <==> forall|k: int|
            0 <= k < events.len() ==> !((#[trigger] events[k]) matches FrameEvent::Frame(p, _) && p.len() > 0)),
    decreases events.len(),
{
    if events.len() > 0 {
        let before = events.drop_last();
        law_only_first_frame_has_no_interval(before);
        if !sending(events).1 {
            let frames = exists|k: int|
                0 <= k < before.len() && ((#[trigger] before[k]) matches FrameEvent::Frame(p, _) && p.len()
                    > 0);
            if frames {
                let k = choose|k: int|
                    0 <= k < before.len() && ((#[trigger] before[k]) matches FrameEvent::Frame(p, _)
                        && p.len() > 0);
                assert(events[k] == before[k]);
            } else {
                assert forall|k: int| 0 <= k < events.len() - 1 implies !((
                #[trigger] events[k]) matches FrameEvent::Frame(p, _) && p.len() > 0) by {
                    assert(before[k] == events[k]);
                }
            }
            assert(events[events.len() - 1] == events.last());
        }
    }
}

/// The steps of an answer in the order in which they are taken.
pub open spec fn answer_steps() -> Seq<AnswerStep> {
    seq![
        AnswerStep::RegisterCodecs,
        AnswerStep::RegisterInterceptors,
        AnswerStep::NewPeerConnection,
        AnswerStep::AddVideoTrack,
        AnswerStep::SetRemoteDescription,
        AnswerStep::CreateAnswer,
        AnswerStep::SetLocalDescription,
        AnswerStep::GatherCandidates,
        AnswerStep::ReadLocalDescription,
    ]
}

/// Every step that succeeds leads to the next one in the order, and the last one to the answer.
pub proof fn law_steps_are_taken_in_order(k: int)
    requires
        0 <= k < 9,
    ensures
        k < 8 ==> answer_next(answer_steps()[k], None) == AnswerNext::<Seq<char>>::Do(answer_steps()[k + 1]),
        k == 8 ==> answer_next(answer_steps()[k], None) == AnswerNext::<Seq<char>>::Done,
        answering(answer_steps()[0], Seq::new(k as nat, |i: int| None)) == AnswerNext::<Seq<char>>::Do(
            answer_steps()[k],
        ),
{
    lemma_steps_from(0, k);
}

proof fn lemma_steps_from(from: int, n: int)
    requires
        0 <= from,
        0 <= n,
        from + n < 9,
    ensures
        answering(answer_steps()[from], Seq::new(n as nat, |i: int| None)) == AnswerNext::<Seq<char>>::Do(
            answer_steps()[from + n],
        ),
    decreases n,
{
    if n > 0 {
        let outcomes = Seq::new(n as nat, |i: int| None::<Seq<char>>);
        assert(outcomes.drop_first() =~= Seq::new((n - 1) as nat, |i: int| None::<Seq<char>>));
        lemma_steps_from(from + 1, n - 1);
    }
}

/// A step that fails is named in the message, and the reason stands in it whole: of two reasons the
/// messages differ if the reasons do. Only the wait for candidates may fail, and reading the local
/// description has a message of its own.
pub proof fn law_failure_tells_step_and_reason(step: AnswerStep, e: Seq<char>, other: Seq<char>)
    ensures
        step == AnswerStep::GatherCandidates ==> answer_next(step, Some(e)) == answer_next(step, None),
        step == AnswerStep::ReadLocalDescription ==> answer_next(step, Some(e)) == AnswerNext::Fail(
            "missing local description"@,
        ),
        step != AnswerStep::GatherCandidates && step != AnswerStep::ReadLocalDescription ==> {
            let label = match step {
                AnswerStep::RegisterCodecs => "register codecs: "@,
                AnswerStep::RegisterInterceptors => "register interceptors: "@,
                AnswerStep::NewPeerConnection => "new peer connection: "@,
                AnswerStep::AddVideoTrack => "add video track: "@,
                AnswerStep::SetRemoteDescription => "set remote description: "@,
                AnswerStep::CreateAnswer => "create answer: "@,
                _ => "set local description: "@,
            };
            &&& answer_next(step, Some(e)) matches AnswerNext::Fail(message)
            &&& label.is_prefix_of(message) && message.skip(label.len() as int) == e
            &&& e != other ==> answer_next(step, Some(e)) != answer_next(step, Some(other))
        },
{
    if step != AnswerStep::GatherCandidates && step != AnswerStep::ReadLocalDescription {
        let label = match step {
            AnswerStep::RegisterCodecs => "register codecs: "@,
            AnswerStep::RegisterInterceptors => "register interceptors: "@,
            AnswerStep::NewPeerConnection => "new peer connection: "@,
            AnswerStep::AddVideoTrack => "add video track: "@,
            AnswerStep::SetRemoteDescription => "set remote description: "@,
            AnswerStep::CreateAnswer => "create answer: "@,
            _ => "set local description: "@,
        };
        assert((label + e).skip(label.len() as int) =~= e);
        assert((label + other).skip(label.len() as int) =~= other);
        assert(label =~= (label + e).subrange(0, label.len() as int));
    }
}

/// The plan for an offer is for the address of the device, relayed exactly if the offer asks for it, and
/// has one of the two profiles with its port.
pub proof fn law_plan_follows_the_offer(
    ip: Seq<char>,
    profile: Option<Seq<char>>,
    policy: Option<Seq<char>>,
)
    ensures
        ({
            let plan = offer_plan(ip, profile, policy);
            &&& plan.ip == ip
            &&& plan.force_relay <==> policy == Some("relay"@)
            &&& plan.profile == "lan"@ && plan.port == 7003 || plan.profile == "wan"@ && plan.port == 7006
        }),
{
}

/// The payloads that are written in the course of `events`, where the last frame arrived at `last`. Nothing
/// follows once the connection is closed.
pub open spec fn written_payloads(last: Option<u128>, events: Seq<FrameEvent<Seq<u8>>>) -> Seq<Seq<u8>>
    decreases events.len(),
{
    if events.len() == 0 {
        Seq::empty()
    } else {
        let (next, action) = frame_step(last, events[0]);
        match action {
            FrameAction::Write { payload, .. } => seq![payload] + written_payloads(next, events.drop_first()),
            FrameAction::Wait => written_payloads(next, events.drop_first()),
            FrameAction::Close => Seq::empty(),
        }
    }
}

/// Whether an event leaves the connection open: the device accepted it, a frame arrived or was sent.
pub open spec fn keeps_open(event: FrameEvent<Seq<u8>>) -> bool {
    match event {
        FrameEvent::Connected(ok) => ok,
        FrameEvent::Frame(_, _) => true,
        FrameEvent::Written(ok) => ok,
        _ => false,
    }
}

/// As long as the connection is open, every frame with a payload is written, whole and in order: what is
/// written are exactly the payloads that arrived and are not empty.
pub proof fn law_frames_are_written_whole(last: Option<u128>, events: Seq<FrameEvent<Seq<u8>>>)
    requires
        forall|k: int| 0 <= k < events.len() ==> keeps_open(#[trigger] events[k]),
    ensures
        written_payloads(last, events) == events.filter_map(
            |e: FrameEvent<Seq<u8>>|
                match e {
                    FrameEvent::Frame(payload, _) => if payload.len() > 0 {
                        Some(payload)
                    } else {
                        None::<Seq<u8>>
                    },
                    _ => None::<Seq<u8>>,
                },
        ),
    decreases events.len(),
{
    let kept = |e: FrameEvent<Seq<u8>>|
        match e {
            FrameEvent::Frame(payload, _) => if payload.len() > 0 {
                Some(payload)
            } else {
                None::<Seq<u8>>
            },
            _ => None::<Seq<u8>>,
        };
    if events.len() > 0 {
        let rest = events.drop_first();
        assert(keeps_open(events[0]));
        assert forall|k: int| 0 <= k < rest.len() implies keeps_open(#[trigger] rest[k]) by {
            assert(rest[k] == events[k + 1]);
        }
        let (next, _) = frame_step(last, events[0]);
        law_frames_are_written_whole(next, rest);
        lemma_filter_map_first(events, kept);
    } else {
        reveal(Seq::filter_map);
    }
}

/// All the bytes of the payloads of the frames among `events`, one after the other.
pub open spec fn frame_bytes(events: Seq<FrameEvent<Seq<u8>>>) -> Seq<u8>
    decreases events.len(),
{
    if events.len() == 0 {
        Seq::empty()
    } else {
        (match events[0] {
            FrameEvent::Frame(payload, _) => payload,
            _ => Seq::empty(),
        }) + frame_bytes(events.drop_first())
    }
}

/// As long as the connection is open no byte of a frame is lost, added or moved.
pub proof fn law_no_byte_of_a_frame_is_lost(last: Option<u128>, events: Seq<FrameEvent<Seq<u8>>>)
    requires
        forall|k: int| 0 <= k < events.len() ==> keeps_open(#[trigger] events[k]),
    ensures
        written_payloads(last, events).flatten() == frame_bytes(events),
    decreases events.len(),
{
    if events.len() > 0 {
        let rest = events.drop_first();
        assert(keeps_open(events[0]));
        assert forall|k: int| 0 <= k < rest.len() implies keeps_open(#[trigger] rest[k]) by {
            assert(rest[k] == events[k + 1]);
        }
        let (next, action) = frame_step(last, events[0]);
        law_no_byte_of_a_frame_is_lost(next, rest);
        if let FrameAction::Write { payload, .. } = action {
            let all = seq![payload] + written_payloads(next, rest);
            assert(all.drop_first() =~= written_payloads(next, rest));
            assert(all.flatten() =~= payload + all.drop_first().flatten());
        }
        assert(written_payloads(last, events).flatten() =~= frame_bytes(events));
    }
}

/// The connection is closed exactly if the device does not accept it, the session is cancelled, the frames
/// end or cannot be read, or a frame could not be sent. Only a frame with a payload is written.
pub proof fn law_connection_is_closed_exactly_then(last: Option<u128>, event: FrameEvent<Seq<u8>>)
    ensures
        frame_step(last, event).1 is Close <==> !keeps_open(event),
        frame_step(last, event).1 is Write <==> (event matches FrameEvent::Frame(p, _) && p.len() > 0),
{
}

/// A sample's interval is the time since the last frame that was written, in whole microseconds, or
/// nothing if the clock did not advance. The first frame has none.
pub proof fn law_interval_is_the_time_between_frames(
    last: Option<u128>,
    payload: Seq<u8>,
    at: u128,
    between: FrameEvent<Seq<u8>>,
)
    requires
        payload.len() > 0,
    ensures
        ({
            let (next, action) = frame_step(last, FrameEvent::Frame(payload, at));
            &&& next == Some(at)
            &&& action matches FrameAction::Write { observed_us, .. }
            &&& match (last, observed_us) {
                (Some(t), Some(us)) => if at >= t {
                    us * 1000 <= at - t < us * 1000 + 1000
                } else {
                    us == 0
                },
                (None, None) => true,
                _ => false,
            }
        }),
        !(between matches FrameEvent::Frame(p, _) && p.len() > 0) ==> frame_step(last, between).0 == last,
{
}

} // verus!
