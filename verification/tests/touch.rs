use tango_bridge::relay::{Action, TaskEvent, WsEvent};
use tango_bridge::touch::{client_step, forward_ios_zxtouch_command, move_command, pump_step, MoveSlot};

fn sent(action: Action<Vec<Vec<u8>>>) -> Vec<Vec<u8>> {
    match action {
        Action::Send(list) => list,
        _ => panic!("nothing is sent"),
    }
}

#[test]
fn moves_begin_with_their_number() {
    assert!(move_command(&b"1012".to_vec()));
    assert!(move_command(&b"1012;5;6".to_vec()));
    assert!(!move_command(&b"101".to_vec()));
    assert!(!move_command(&b"1011;5;6".to_vec()));
    assert!(!move_command(&b" 1012".to_vec()));
    assert!(!move_command(&Vec::new()));
}

#[test]
fn latest_move_replaces_the_one_that_waits() {
    let mut slot = MoveSlot::new();
    assert!(forward_ios_zxtouch_command(&mut slot, b"1012a".to_vec()).is_empty());
    assert!(forward_ios_zxtouch_command(&mut slot, b"1012b".to_vec()).is_empty());
    assert_eq!(slot.latest, Some(b"1012b".to_vec()));
}

#[test]
fn other_command_goes_behind_the_waiting_move() {
    let mut slot = MoveSlot::new();
    assert!(forward_ios_zxtouch_command(&mut slot, b"1012a".to_vec()).is_empty());
    let out = forward_ios_zxtouch_command(&mut slot, b"1013".to_vec());
    assert_eq!(out, vec![b"1012a".to_vec(), b"1013".to_vec()]);
    assert_eq!(slot.latest, None);
    let out = forward_ios_zxtouch_command(&mut slot, b"1014".to_vec());
    assert_eq!(out, vec![b"1014".to_vec()]);
}

#[test]
fn tick_sends_the_waiting_move_once() {
    let mut slot = MoveSlot::new();
    assert!(matches!(pump_step(&mut slot, TaskEvent::Tick), Action::Wait));
    assert!(sent(client_step(&mut slot, TaskEvent::Client(WsEvent::Binary(b"1012x".to_vec())))).is_empty());
    assert_eq!(sent(pump_step(&mut slot, TaskEvent::Tick)), vec![b"1012x".to_vec()]);
    assert!(matches!(pump_step(&mut slot, TaskEvent::Tick), Action::Wait));
}

#[test]
fn text_messages_are_commands_in_utf8() {
    let mut slot = MoveSlot::new();
    let out = sent(client_step(&mut slot, TaskEvent::Client(WsEvent::Text("20é".to_string()))));
    assert_eq!(out, vec!["20é".as_bytes().to_vec()]);
    assert!(sent(client_step(&mut slot, TaskEvent::Client(WsEvent::Text("1012;é".to_string())))).is_empty());
    assert_eq!(slot.latest, Some("1012;é".as_bytes().to_vec()));
}

#[test]
fn touch_tasks_end() {
    let mut slot = MoveSlot::new();
    assert!(matches!(client_step(&mut slot, TaskEvent::Cancelled), Action::End));
    assert!(matches!(client_step(&mut slot, TaskEvent::Client(WsEvent::Close)), Action::End));
    assert!(matches!(client_step(&mut slot, TaskEvent::Client(WsEvent::Failed)), Action::End));
    assert!(matches!(client_step(&mut slot, TaskEvent::Client(WsEvent::Ended)), Action::End));
    assert!(matches!(client_step(&mut slot, TaskEvent::Sent(false)), Action::End));
    assert!(matches!(client_step(&mut slot, TaskEvent::Client(WsEvent::Other)), Action::Wait));
    assert!(matches!(pump_step(&mut slot, TaskEvent::Cancelled), Action::End));
    assert!(matches!(pump_step(&mut slot, TaskEvent::Sent(false)), Action::End));
    assert!(matches!(pump_step(&mut slot, TaskEvent::Sent(true)), Action::Wait));
}

#[test]
fn commands_keep_their_order_and_the_last_position_arrives() {
    let mut slot = MoveSlot::new();
    let mut out: Vec<Vec<u8>> = Vec::new();
    for command in [&b"1011"[..], &b"1012a"[..], &b"1012b"[..], &b"1013"[..], &b"1012c"[..]] {
        out.extend(forward_ios_zxtouch_command(&mut slot, command.to_vec()));
    }
    assert_eq!(out, vec![b"1011".to_vec(), b"1012b".to_vec(), b"1013".to_vec()]);
    assert_eq!(slot.latest, Some(b"1012c".to_vec()));
    out.extend(sent(pump_step(&mut slot, TaskEvent::Tick)));
    assert_eq!(out.last(), Some(&b"1012c".to_vec()));
}

#[test]
fn only_moves_that_are_replaced_are_left_out() {
    let mut slot = MoveSlot::new();
    let mut out: Vec<Vec<u8>> = Vec::new();
    for input in ["1012a", "1012b", "tick", "1012c", "1011", "1012d", "tick", "tick", "1012e", "1012f", "1013"] {
        if input == "tick" {
            if let Action::Send(list) = pump_step(&mut slot, TaskEvent::Tick) {
                out.extend(list);
            }
        } else {
            out.extend(forward_ios_zxtouch_command(&mut slot, input.as_bytes().to_vec()));
        }
    }
    let expected: Vec<Vec<u8>> =
        ["1012b", "1012c", "1011", "1012d", "1012f", "1013"].iter().map(|c| c.as_bytes().to_vec()).collect();
    assert_eq!(out, expected);
    assert_eq!(slot.latest, None);
}
