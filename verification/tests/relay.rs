use tango_bridge::relay::{
    bridge_client_step, queue_step, reader_step, stream_client_step, Action, StreamStats, TaskEvent, WsEvent,
    MEASURED_PORT, REPORT_WINDOW_NS,
};

type Event = TaskEvent<Vec<u8>, String>;

fn sent(action: Action<Vec<Vec<u8>>>) -> Vec<Vec<u8>> {
    match action {
        Action::Send(list) => list,
        _ => panic!("nothing is sent"),
    }
}

fn waits(action: Action<Vec<Vec<u8>>>) -> bool {
    matches!(action, Action::Wait)
}

fn ends(action: Action<Vec<Vec<u8>>>) -> bool {
    matches!(action, Action::End)
}

fn run(step: fn(Event) -> Action<Vec<Vec<u8>>>, events: Vec<Event>) -> Vec<Vec<u8>> {
    let mut out = Vec::new();
    for event in events {
        match step(event) {
            Action::Send(list) => out.extend(list),
            Action::Wait => {}
            Action::End => return out,
        }
    }
    out
}

#[test]
fn bridge_forwards_binary_messages_only() {
    let events = vec![
        TaskEvent::Client(WsEvent::Binary(b"one".to_vec())),
        TaskEvent::Sent(true),
        TaskEvent::Client(WsEvent::Text("text".to_string())),
        TaskEvent::Client(WsEvent::Other),
        TaskEvent::Client(WsEvent::Close),
        TaskEvent::Client(WsEvent::Binary(b"two".to_vec())),
        TaskEvent::Sent(true),
        TaskEvent::Client(WsEvent::Ended),
        TaskEvent::Client(WsEvent::Binary(b"late".to_vec())),
    ];
    assert_eq!(run(bridge_client_step, events), vec![b"one".to_vec(), b"two".to_vec()]);
}

#[test]
fn bridge_client_ends_when_it_is_gone() {
    assert!(ends(bridge_client_step(TaskEvent::Client(WsEvent::Ended))));
    assert!(ends(bridge_client_step(TaskEvent::Client(WsEvent::Failed))));
    assert!(ends(bridge_client_step(TaskEvent::Sent(false))));
    assert!(waits(bridge_client_step(TaskEvent::Client(WsEvent::Close))));
    assert!(waits(bridge_client_step(TaskEvent::Sent(true))));
}

#[test]
fn queue_is_emptied_in_order() {
    let events = vec![
        TaskEvent::Queue(Some(b"a".to_vec())),
        TaskEvent::Sent(true),
        TaskEvent::Queue(Some(Vec::new())),
        TaskEvent::Sent(true),
        TaskEvent::Queue(Some(b"c".to_vec())),
        TaskEvent::Sent(false),
        TaskEvent::Queue(Some(b"d".to_vec())),
    ];
    assert_eq!(run(queue_step, events), vec![b"a".to_vec(), Vec::new(), b"c".to_vec()]);
    assert!(ends(queue_step(TaskEvent::Queue(None))));
    assert!(ends(queue_step(TaskEvent::Cancelled)));
}

#[test]
fn reader_sends_on_what_is_read() {
    assert_eq!(sent(reader_step(TaskEvent::Read(Some(b"xyz".to_vec())))), vec![b"xyz".to_vec()]);
    assert!(ends(reader_step(TaskEvent::Read(Some(Vec::new())))));
    assert!(ends(reader_step(TaskEvent::Read(None))));
    assert!(ends(reader_step(TaskEvent::Cancelled)));
    assert!(ends(reader_step(TaskEvent::Sent(false))));
    assert!(waits(reader_step(TaskEvent::Sent(true))));
}

#[test]
fn reader_makes_nothing_up() {
    let events = vec![
        TaskEvent::Read(Some(b"1".to_vec())),
        TaskEvent::Sent(true),
        TaskEvent::Read(Some(b"2".to_vec())),
        TaskEvent::Sent(true),
        TaskEvent::Read(Some(Vec::new())),
        TaskEvent::Read(Some(b"3".to_vec())),
    ];
    assert_eq!(run(reader_step, events), vec![b"1".to_vec(), b"2".to_vec()]);
}

#[test]
fn all_that_is_read_or_queued_is_sent_on() {
    let parts: Vec<Vec<u8>> = vec![b"ab".to_vec(), b"c".to_vec(), b"ab".to_vec(), vec![0, 255]];
    let mut read: Vec<Event> = Vec::new();
    let mut queued: Vec<Event> = Vec::new();
    for part in &parts {
        read.push(TaskEvent::Read(Some(part.clone())));
        read.push(TaskEvent::Sent(true));
        queued.push(TaskEvent::Queue(Some(part.clone())));
        queued.push(TaskEvent::Sent(true));
    }
    assert_eq!(run(reader_step, read), parts);
    assert_eq!(run(queue_step, queued), parts);
}

#[test]
fn stream_client_sends_nothing() {
    let events = vec![
        TaskEvent::Client(WsEvent::Binary(b"a".to_vec())),
        TaskEvent::Client(WsEvent::Text("b".to_string())),
        TaskEvent::Client(WsEvent::Other),
    ];
    assert!(run(stream_client_step, events).is_empty());
    assert!(ends(stream_client_step(TaskEvent::Client(WsEvent::Close))));
    assert!(ends(stream_client_step(TaskEvent::Client(WsEvent::Ended))));
    assert!(ends(stream_client_step(TaskEvent::Client(WsEvent::Failed))));
    assert!(ends(stream_client_step(TaskEvent::Cancelled)));
}

#[test]
fn chunks_are_counted_until_a_report() {
    let mut stats = StreamStats::new();
    assert!(stats.chunk_sent(MEASURED_PORT, 1000, 40, 1).is_none());
    assert!(stats.chunk_sent(MEASURED_PORT, 500, 60, REPORT_WINDOW_NS - 1).is_none());
    assert_eq!(stats, StreamStats { bytes: 1500, chunks: 2, send_us: 100 });
    let report = stats.chunk_sent(MEASURED_PORT, 1, 2, REPORT_WINDOW_NS).unwrap();
    assert_eq!(report, StreamStats { bytes: 1501, chunks: 3, send_us: 102 });
    assert_eq!(stats, StreamStats::new());
    assert_eq!(REPORT_WINDOW_NS, 3_000_000_000);
}

#[test]
fn other_ports_are_not_counted() {
    let mut stats = StreamStats::new();
    assert!(stats.chunk_sent(7001, 1000, 40, 9_000_000_000).is_none());
    assert_eq!(stats, StreamStats::new());
}

#[test]
fn room_ends_with_the_range() {
    let full = StreamStats { bytes: u64::MAX - 10, chunks: 0, send_us: 0 };
    assert!(full.room(10, 0));
    assert!(!full.room(11, 0));
    let full = StreamStats { bytes: 0, chunks: u64::MAX, send_us: 0 };
    assert!(!full.room(0, 0));
    let full = StreamStats { bytes: 0, chunks: 0, send_us: u128::MAX };
    assert!(full.room(0, 0));
    assert!(!full.room(0, 1));
}
