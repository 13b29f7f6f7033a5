use tango_bridge::rtc::{
    bounded_interval_us, finish_rtc_offer, ice_state_cancels, ios_rtc_close_handler, ios_rtc_offer_handler, peer_state_cancels,
    AnswerNext, AnswerStep, FrameAction, FrameEvent, FramePump, IceState, OfferPlan, PeerState, RtcSessions,
    CONNECT_SECONDS, FIRST_DURATION_US, GATHER_SECONDS, VIDEO_CLOCK_RATE,
};
use tango_bridge::zxh::ZxhFrame;

const STEPS: [AnswerStep; 9] = [
    AnswerStep::RegisterCodecs,
    AnswerStep::RegisterInterceptors,
    AnswerStep::NewPeerConnection,
    AnswerStep::AddVideoTrack,
    AnswerStep::SetRemoteDescription,
    AnswerStep::CreateAnswer,
    AnswerStep::SetLocalDescription,
    AnswerStep::GatherCandidates,
    AnswerStep::ReadLocalDescription,
];

fn plan() -> OfferPlan {
    OfferPlan { ip: "10.0.0.5".to_string(), profile: "lan".to_string(), port: 7003, force_relay: false }
}

#[test]
fn sessions_are_a_map() {
    let mut sessions: RtcSessions<u32> = RtcSessions::new();
    assert_eq!(sessions.insert("a".to_string(), 1), None);
    assert_eq!(sessions.insert("b".to_string(), 2), None);
    assert_eq!(sessions.insert("a".to_string(), 3), Some(1));
    assert_eq!(sessions.remove("c"), None);
    assert_eq!(sessions.remove("a"), Some(3));
    assert_eq!(sessions.remove("a"), None);
    assert_eq!(sessions.remove("b"), Some(2));
}

#[test]
fn offer_is_taken_up() {
    let mut sessions: RtcSessions<u32> = RtcSessions::new();
    let (plan, replaced) =
        ios_rtc_offer_handler(&mut sessions, "x".to_string(), Some("10.0.0.5".to_string()), None, None, 1).unwrap();
    assert_eq!((plan.ip.as_str(), plan.profile.as_str(), plan.port), ("10.0.0.5", "lan", 7003));
    assert!(!plan.force_relay);
    assert_eq!(replaced, None);
    let (plan, replaced) = ios_rtc_offer_handler(
        &mut sessions,
        "x".to_string(),
        Some("1.2.3.4".to_string()),
        Some("auto"),
        Some("relay"),
        2,
    )
    .unwrap();
    assert_eq!((plan.profile.as_str(), plan.port, plan.force_relay), ("wan", 7006, true));
    assert_eq!(replaced, Some(1));
    assert_eq!(sessions.remove("x"), Some(2));
}

#[test]
fn only_the_word_relay_forces_relaying() {
    for policy in [None, Some("all"), Some("RELAY"), Some("relay "), Some("")] {
        let mut sessions: RtcSessions<u32> = RtcSessions::new();
        let (plan, _) =
            ios_rtc_offer_handler(&mut sessions, "x".to_string(), Some("::1".to_string()), None, policy, 1).unwrap();
        assert!(!plan.force_relay);
    }
}

#[test]
fn offer_for_a_missing_device_changes_nothing() {
    let mut sessions: RtcSessions<u32> = RtcSessions::new();
    sessions.insert("x".to_string(), 9);
    let e = ios_rtc_offer_handler(&mut sessions, "x".to_string(), None, None, None, 1).unwrap_err();
    assert_eq!((e.status, e.message.as_str()), (404, "device not found"));
    assert_eq!(sessions.remove("x"), Some(9));
}

#[test]
fn answered_offer_keeps_its_session() {
    let mut sessions: RtcSessions<u32> = RtcSessions::new();
    sessions.insert("x".to_string(), 1);
    let (answer, cancelled) = finish_rtc_offer(&mut sessions, "x", plan(), Ok::<u64, String>(42));
    let answer = answer.unwrap();
    assert_eq!((answer.sdp, answer.profile.as_str(), answer.port), (42, "lan", 7003));
    assert_eq!(cancelled, None);
    assert_eq!(sessions.remove("x"), Some(1));
}

#[test]
fn failed_offer_ends_its_session() {
    let mut sessions: RtcSessions<u32> = RtcSessions::new();
    sessions.insert("x".to_string(), 1);
    sessions.insert("y".to_string(), 2);
    let (answer, cancelled) = finish_rtc_offer(&mut sessions, "x", plan(), Err::<u64, String>("boom".to_string()));
    let e = answer.unwrap_err();
    assert_eq!((e.status, e.message.as_str()), (502, "boom"));
    assert_eq!(cancelled, Some(1));
    assert_eq!(sessions.remove("x"), None);
    assert_eq!(sessions.remove("y"), Some(2));
}

#[test]
fn closing_cancels_the_session() {
    let mut sessions: RtcSessions<u32> = RtcSessions::new();
    sessions.insert("x".to_string(), 1);
    assert_eq!(ios_rtc_close_handler(&mut sessions, "x"), (204, Some(1)));
    assert_eq!(ios_rtc_close_handler(&mut sessions, "x"), (204, None));
}

#[test]
fn steps_come_in_order() {
    for i in 0..9 {
        let next = STEPS[i].next(None);
        if i == 8 {
            assert!(matches!(next, AnswerNext::Done));
        } else {
            assert!(matches!(next, AnswerNext::Do(step) if step == STEPS[i + 1]));
        }
    }
}

#[test]
fn failures_say_what_failed() {
    let messages = [
        "register codecs: e",
        "register interceptors: e",
        "new peer connection: e",
        "add video track: e",
        "set remote description: e",
        "create answer: e",
        "set local description: e",
        "",
        "missing local description",
    ];
    for i in 0..9 {
        match STEPS[i].next(Some("e".to_string())) {
            AnswerNext::Fail(message) => assert_eq!(message, messages[i]),
            AnswerNext::Do(step) => assert_eq!((i, step), (7, AnswerStep::ReadLocalDescription)),
            AnswerNext::Done => panic!("a failure ends well"),
        }
    }
}

#[test]
fn lost_connections_cancel() {
    assert!(peer_state_cancels(PeerState::Disconnected));
    assert!(peer_state_cancels(PeerState::Failed));
    assert!(peer_state_cancels(PeerState::Closed));
    for state in [PeerState::Unspecified, PeerState::New, PeerState::Connecting, PeerState::Connected] {
        assert!(!peer_state_cancels(state));
    }
    assert!(ice_state_cancels(IceState::Disconnected));
    assert!(ice_state_cancels(IceState::Failed));
    assert!(ice_state_cancels(IceState::Closed));
    for state in
        [IceState::Unspecified, IceState::New, IceState::Checking, IceState::Connected, IceState::Completed]
    {
        assert!(!ice_state_cancels(state));
    }
}

fn frame(payload: &[u8]) -> ZxhFrame {
    ZxhFrame { timestamp_us: 1, payload: payload.to_vec() }
}

fn written(action: FrameAction<Vec<u8>>) -> (Vec<u8>, Option<u128>) {
    match action {
        FrameAction::Write { payload, observed_us } => (payload, observed_us),
        _ => panic!("nothing is written"),
    }
}

#[test]
fn frames_go_out_with_their_intervals() {
    let mut pump = FramePump::new();
    assert!(matches!(pump.step(FrameEvent::Connected(true)), FrameAction::Wait));
    assert_eq!(written(pump.step(FrameEvent::Frame(frame(b"a"), 5_000_000))), (b"a".to_vec(), None));
    assert!(matches!(pump.step(FrameEvent::Written(true)), FrameAction::Wait));
    assert!(matches!(pump.step(FrameEvent::Frame(frame(b""), 9_000_000)), FrameAction::Wait));
    assert_eq!(written(pump.step(FrameEvent::Frame(frame(b"b"), 38_333_999))), (b"b".to_vec(), Some(33_333)));
    assert_eq!(written(pump.step(FrameEvent::Frame(frame(b"c"), 38_333_999))), (b"c".to_vec(), Some(0)));
    assert_eq!(written(pump.step(FrameEvent::Frame(frame(b"d"), 1))), (b"d".to_vec(), Some(0)));
    assert_eq!(pump.last_frame_at, Some(1));
}

#[test]
fn sending_frames_ends() {
    let mut pump = FramePump::new();
    assert!(matches!(pump.step(FrameEvent::Connected(false)), FrameAction::Close));
    assert!(matches!(pump.step(FrameEvent::Cancelled), FrameAction::Close));
    assert!(matches!(pump.step(FrameEvent::End), FrameAction::Close));
    assert!(matches!(pump.step(FrameEvent::Failed), FrameAction::Close));
    assert!(matches!(pump.step(FrameEvent::Written(false)), FrameAction::Close));
    assert_eq!(pump.last_frame_at, None);
}

#[test]
fn rtc_numbers() {
    assert_eq!((VIDEO_CLOCK_RATE, GATHER_SECONDS, CONNECT_SECONDS), (90_000, 3, 2));
}

#[test]
fn intervals_are_bounded() {
    for (observed, reckoned) in
        [(0, 30_000), (29_999, 30_000), (30_000, 30_000), (33_333, 33_333), (60_000, 60_000), (60_001, 60_000), (u128::MAX, 60_000)]
    {
        assert_eq!(bounded_interval_us(observed), reckoned);
        assert_eq!(reckoned as f64, (observed as f64).clamp(30_000.0, 60_000.0));
    }
    assert_eq!(FIRST_DURATION_US, 33_333);
}
