//! Touch commands on their way to a device.
//!
//! Fingers that move produce far more commands than a device can follow, and only the latest
//! position matters. So a move waits in a slot, where the next move replaces it, until a clock tick
//! or another kind of command sends it on.

use vstd::prelude::*;
use vstd::string::StrSliceExecFns;

use crate::relay::{Action, TaskEvent, WsEvent, byte_strings, one, opt_bytes};

verus! {

/// A move is a command that begins with `1012`.
pub open spec fn is_move(command: Seq<u8>) -> bool {
    seq![0x31u8, 0x30u8, 0x31u8, 0x32u8].is_prefix_of(command)
}

/// Whether `command` is a move.
pub fn move_command(command: &Vec<u8>) -> (r: bool)
    ensures
        r == is_move(command@),
{
    let ghost tag = seq![0x31u8, 0x30u8, 0x31u8, 0x32u8];
    let r = command.len() >= 4 && command[0] == 0x31 && command[1] == 0x30 && command[2] == 0x31
        && command[3] == 0x32;
    proof {
        if r {
            assert(tag =~= command@.subrange(0, 4));
        } else if tag.is_prefix_of(command@) {
            let head = command@.subrange(0, 4);
            assert(head == tag);
            assert(head[0] == command@[0] && head[1] == command@[1] && head[2] == command@[2] && head[3]
                == command@[3]);
        }
    }
    r
}

/// The slot in which a move waits.
pub struct MoveSlot {
    pub latest: Option<Vec<u8>>,
}

impl View for MoveSlot {
    type V = Option<Seq<u8>>;

    open spec fn view(&self) -> Option<Seq<u8>> {
        opt_bytes(self.latest)
    }
}

/// A touch session's slot, and what goes on to the device.
pub struct Step {
    pub slot: Option<Seq<u8>>,
    pub sent: Seq<Seq<u8>>,
}

/// What a command does: a move takes the slot, any other command goes on behind the move that waits.
pub open spec fn forward(slot: Option<Seq<u8>>, command: Seq<u8>) -> Step {
    if is_move(command) {
        Step { slot: Some(command), sent: Seq::empty() }
    } else {
        Step {
            slot: None,
            sent: match slot {
                Some(m) => seq![m, command],
                None => seq![command],
            },
        }
    }
}

impl MoveSlot {
    /// An empty slot.
    pub fn new() -> (r: Self)
        ensures
            r@ is None,
    {
        MoveSlot { latest: None }
    }
}

/// Takes a command from the client. The result goes on to the device, in this order.
pub fn forward_ios_zxtouch_command(latest_move: &mut MoveSlot, command: Vec<u8>) -> (r: Vec<Vec<u8>>)
    ensures
        final(latest_move)@ == forward(old(latest_move)@, command@).slot,
        byte_strings(r@) == forward(old(latest_move)@, command@).sent,
        is_move(command@) ==> r@.len() == 0 && opt_bytes(final(latest_move).latest) == Some(command@),
        !is_move(command@) ==> {
            &&& final(latest_move).latest is None
            &&& match old(latest_move).latest {
                Some(m) => r@.len() == 2 && r@[0]@ == m@ && r@[1]@ == command@,
                None => r@.len() == 1 && r@[0]@ == command@,
            }
        },
{
    if move_command(&command) {
        latest_move.latest = Some(command);
        let none: Vec<Vec<u8>> = Vec::new();
        assert(byte_strings(none@) =~= Seq::empty());
        return none;
    }
    match latest_move.latest.take() {
        Some(m) => {
            let mut sent = one(m);
            let ghost first = byte_strings(sent@);
            sent.push(command);
            assert(byte_strings(sent@) =~= first.push(command@));
            sent
        },
        None => one(command),
    }
}

/// What follows for the task that reads the client: binary and text messages are commands, and the
/// task ends when the client closes, is gone or fails, when sending fails or when the session is
/// cancelled.
pub open spec fn client_action(
    slot: Option<Seq<u8>>,
    event: TaskEvent<Seq<u8>, Seq<char>>,
) -> (Option<Seq<u8>>, Action<Seq<Seq<u8>>>) {
    match event {
        TaskEvent::Cancelled => (slot, Action::End),
        TaskEvent::Client(WsEvent::Binary(b)) => {
            let step = forward(slot, b);
            (step.slot, Action::Send(step.sent))
        },
        TaskEvent::Client(WsEvent::Text(t)) => {
            let step = forward(slot, vstd::utf8::encode_utf8(t));
            (step.slot, Action::Send(step.sent))
        },
        TaskEvent::Client(WsEvent::Close) => (slot, Action::End),
        TaskEvent::Client(WsEvent::Failed) => (slot, Action::End),
        TaskEvent::Client(WsEvent::Ended) => (slot, Action::End),
        TaskEvent::Sent(ok) => (
            slot,
            if ok {
                Action::Wait
            } else {
                Action::End
            },
        ),
        _ => (slot, Action::Wait),
    }
}

/// The next step of the task that reads the client.
pub fn client_step(latest_move: &mut MoveSlot, event: TaskEvent<Vec<u8>, String>) -> (r: Action<
    Vec<Vec<u8>>,
>)
    ensures
        (final(latest_move)@, r@) == client_action(old(latest_move)@, event@),
        match event {
            TaskEvent::Client(WsEvent::Binary(b)) => {
                &&& r matches Action::Send(l)
                &&& is_move(b@) ==> l@.len() == 0 && opt_bytes(final(latest_move).latest) == Some(b@)
                &&& !is_move(b@) ==> l@.len() > 0 && l@.last()@ == b@ && final(latest_move).latest is None
            },
            TaskEvent::Client(WsEvent::Text(t)) => {
                let b = vstd::utf8::encode_utf8(t@);
                &&& r matches Action::Send(l)
                &&& is_move(b) ==> l@.len() == 0 && opt_bytes(final(latest_move).latest) == Some(b)
                &&& !is_move(b) ==> l@.len() > 0 && l@.last()@ == b && final(latest_move).latest is None
            },
            _ => !(r is Send) && final(latest_move)@ == old(latest_move)@,
        },
{
    match event {
        TaskEvent::Cancelled => Action::End,
        TaskEvent::Client(WsEvent::Binary(b)) => Action::Send(
            forward_ios_zxtouch_command(latest_move, b),
        ),
        TaskEvent::Client(WsEvent::Text(t)) => {
            let bytes = t.as_str().as_bytes_vec();
            Action::Send(forward_ios_zxtouch_command(latest_move, bytes))
        },
        TaskEvent::Client(WsEvent::Close) => Action::End,
        TaskEvent::Client(WsEvent::Failed) => Action::End,
        TaskEvent::Client(WsEvent::Ended) => Action::End,
        TaskEvent::Sent(ok) => if ok {
            Action::Wait
        } else {
            Action::End
        },
        _ => Action::Wait,
    }
}

/// What follows for the task that sends moves on: each tick empties the slot, and the task ends when
/// sending fails or when the session is cancelled.
pub open spec fn pump_action(
    slot: Option<Seq<u8>>,
    event: TaskEvent<Seq<u8>, Seq<char>>,
) -> (Option<Seq<u8>>, Action<Seq<Seq<u8>>>) {
    match event {
        TaskEvent::Cancelled => (slot, Action::End),
        TaskEvent::Tick => (
            None,
            match slot {
                Some(m) => Action::Send(seq![m]),
                None => Action::Wait,
            },
        ),
        TaskEvent::Sent(ok) => (
            slot,
            if ok {
                Action::Wait
            } else {
                Action::End
            },
        ),
        _ => (slot, Action::Wait),
    }
}

/// The next step of the task that sends moves on.
pub fn pump_step(latest_move: &mut MoveSlot, event: TaskEvent<Vec<u8>, String>) -> (r: Action<
    Vec<Vec<u8>>,
>)
    ensures
        (final(latest_move)@, r@) == pump_action(old(latest_move)@, event@),
        match event {
            TaskEvent::Tick => match old(latest_move).latest {
                Some(m) => {
                    &&& r matches Action::Send(l)
                    &&& l@.len() == 1 && l@[0]@ == m@ && final(latest_move).latest is None
                },
                None => r is Wait && final(latest_move).latest is None,
            },
            _ => !(r is Send) && final(latest_move)@ == old(latest_move)@,
        },
{
    match event {
        TaskEvent::Cancelled => Action::End,
        TaskEvent::Tick => match latest_move.latest.take() {
            Some(m) => Action::Send(one(m)),
            None => Action::Wait,
        },
        TaskEvent::Sent(ok) => if ok {
            Action::Wait
        } else {
            Action::End
        },
        _ => Action::Wait,
    }
}

// ----- Laws -----

/// What a touch session is given: a command of the client, or a tick of the clock. Here each input is
/// handled in full, and what it sends on is gone, before the next comes. The two tasks of a session do
/// not wait for each other so long: the one that ticks may have taken a move from the slot and not sent
/// it yet when the other sends a later command.
pub enum Input {
    Command(Seq<u8>),
    Tick,
}

/// What one input does.
pub open spec fn input_step(slot: Option<Seq<u8>>, input: Input) -> Step {
    match input {
        Input::Command(c) => forward(slot, c),
        Input::Tick => Step {
            slot: None,
            sent: match slot {
                Some(m) => seq![m],
                None => Seq::empty(),
            },
        },
    }
}

/// Where a session stands after `inputs`, and all that it has sent on.
pub open spec fn session(inputs: Seq<Input>) -> Step
    decreases inputs.len(),
{
    if inputs.len() == 0 {
        Step { slot: None, sent: Seq::empty() }
    } else {
        let before = session(inputs.drop_last());
        let step = input_step(before.slot, inputs.last());
        Step { slot: step.slot, sent: before.sent + step.sent }
    }
}

/// The commands among `inputs`.
pub open spec fn commands(inputs: Seq<Input>) -> Seq<Seq<u8>>
    decreases inputs.len(),
{
    if inputs.len() == 0 {
        Seq::empty()
    } else {
        match inputs.last() {
            Input::Command(c) => commands(inputs.drop_last()).push(c),
            Input::Tick => commands(inputs.drop_last()),
        }
    }
}

/// The commands that are not moves.
pub open spec fn non_moves(s: Seq<Seq<u8>>) -> Seq<Seq<u8>> {
    s.filter(|c: Seq<u8>| !is_move(c))
}

/// A sequence and the command that waits behind it.
pub open spec fn with_waiting(step: Step) -> Seq<Seq<u8>> {
    match step.slot {
        Some(m) => step.sent.push(m),
        None => step.sent,
    }
}

/// Whether `part` comes out of `whole` by leaving entries out.
pub open spec fn is_subsequence<A>(part: Seq<A>, whole: Seq<A>) -> bool
    decreases whole.len(),
{
    if part.len() == 0 {
        true
    } else if whole.len() == 0 {
        false
    } else if part.last() == whole.last() && is_subsequence(part.drop_last(), whole.drop_last()) {
        true
    } else {
        is_subsequence(part, whole.drop_last())
    }
}

proof fn lemma_slot_holds_move(inputs: Seq<Input>)
    ensures
        session(inputs).slot matches Some(m) ==> is_move(m),
    decreases inputs.len(),
{
    if inputs.len() > 0 {
        lemma_slot_holds_move(inputs.drop_last());
    }
}

/// Where each input is handled in full before the next, commands other than moves are never lost, doubled
/// or reordered: those that a session has sent on are exactly those that it was given.
pub proof fn law_other_commands_are_kept_in_order(inputs: Seq<Input>)
    ensures
        non_moves(session(inputs).sent) == non_moves(commands(inputs)),
    decreases inputs.len(),
{
    let keep = |c: Seq<u8>| !is_move(c);
    reveal(Seq::filter);
    if inputs.len() > 0 {
        let before = session(inputs.drop_last());
        law_other_commands_are_kept_in_order(inputs.drop_last());
        lemma_slot_holds_move(inputs.drop_last());
        let step = input_step(before.slot, inputs.last());
        Seq::filter_distributes_over_add(before.sent, step.sent, keep);
        match inputs.last() {
            Input::Command(c) => {
                assert(commands(inputs).drop_last() =~= commands(inputs.drop_last()));
                if is_move(c) {
                    assert(step.sent.filter(keep) =~= Seq::empty());
                } else if let Some(m) = before.slot {
                    assert(step.sent =~= seq![m].push(c));
                    assert(step.sent.drop_last() =~= seq![m]);
                    assert(seq![m].drop_last() =~= Seq::empty());
                    assert(Seq::<Seq<u8>>::empty().filter(keep) =~= Seq::empty());
                    assert(seq![m].filter(keep) =~= Seq::empty());
                    assert(step.sent.filter(keep) =~= seq![c]);
                } else {
                    assert(step.sent.drop_last() =~= Seq::empty());
                    assert(Seq::<Seq<u8>>::empty().filter(keep) =~= Seq::empty());
                    assert(step.sent.filter(keep) =~= seq![c]);
                }
            },
            Input::Tick => {
                if let Some(m) = before.slot {
                    assert(step.sent.drop_last() =~= Seq::empty());
                    assert(Seq::<Seq<u8>>::empty().filter(keep) =~= Seq::empty());
                    assert(step.sent.filter(keep) =~= Seq::empty());
                } else {
                    assert(step.sent.filter(keep) =~= Seq::empty());
                }
            },
        }
        assert(session(inputs).sent.filter(keep) =~= commands(inputs).filter(keep));
    } else {
        assert(session(inputs).sent.filter(keep) =~= commands(inputs).filter(keep));
    }
}

proof fn lemma_subsequence_push<A>(part: Seq<A>, whole: Seq<A>, a: A)
    requires
        is_subsequence(part, whole),
    ensures
        is_subsequence(part.push(a), whole.push(a)),
        is_subsequence(part, whole.push(a)),
{
    assert(part.push(a).drop_last() =~= part);
    assert(whole.push(a).drop_last() =~= whole);
}

proof fn lemma_subsequence_shorter<A>(part: Seq<A>, whole: Seq<A>)
    requires
        part.len() > 0,
        is_subsequence(part, whole),
    ensures
        is_subsequence(part.drop_last(), whole),
    decreases whole.len(),
{
    if whole.len() > 0 {
        if part.last() == whole.last() && is_subsequence(part.drop_last(), whole.drop_last()) {
            lemma_subsequence_push(part.drop_last(), whole.drop_last(), whole.last());
            assert(whole.drop_last().push(whole.last()) =~= whole);
        } else {
            lemma_subsequence_shorter(part, whole.drop_last());
            lemma_subsequence_push(part.drop_last(), whole.drop_last(), whole.last());
            assert(whole.drop_last().push(whole.last()) =~= whole);
        }
    }
}

/// Where each input is handled in full before the next, a session makes nothing up and reorders nothing:
/// what it has sent on, and the move that waits, are commands that it was given, in the order in which
/// they came.
pub proof fn law_sent_commands_were_given_in_this_order(inputs: Seq<Input>)
    ensures
        is_subsequence(with_waiting(session(inputs)), commands(inputs)),
    decreases inputs.len(),
{
    if inputs.len() > 0 {
        let before = session(inputs.drop_last());
        let after = session(inputs);
        let given = commands(inputs.drop_last());
        law_sent_commands_were_given_in_this_order(inputs.drop_last());
        match inputs.last() {
            Input::Command(c) => {
                if is_move(c) {
                    if before.slot is Some {
                        lemma_subsequence_shorter(with_waiting(before), given);
                        assert(with_waiting(before).drop_last() =~= before.sent);
                    }
                    lemma_subsequence_push(before.sent, given, c);
                    assert(with_waiting(after) =~= before.sent.push(c));
                } else {
                    lemma_subsequence_push(with_waiting(before), given, c);
                    assert(with_waiting(after) =~= with_waiting(before).push(c));
                }
            },
            Input::Tick => {
                assert(with_waiting(after) =~= with_waiting(before));
            },
        }
    }
}

/// Whether an input is a move.
pub open spec fn is_move_input(input: Input) -> bool {
    input matches Input::Command(c) && is_move(c)
}

/// Whether the input at `k` is a move that another move follows at once, without a tick between them.
pub open spec fn is_replaced(inputs: Seq<Input>, k: int) -> bool {
    0 <= k && k + 1 < inputs.len() && is_move_input(inputs[k]) && is_move_input(inputs[k + 1])
}

/// The commands among the first `n` of `inputs`, less each move that another move follows at once.
pub open spec fn thinned(inputs: Seq<Input>, n: int) -> Seq<Seq<u8>>
    decreases n,
{
    if n <= 0 {
        Seq::empty()
    } else {
        let before = thinned(inputs, n - 1);
        match inputs[n - 1] {
            Input::Command(c) => if is_replaced(inputs, n - 1) {
                before
            } else {
                before.push(c)
            },
            Input::Tick => before,
        }
    }
}

proof fn lemma_thinned_agrees(a: Seq<Input>, b: Seq<Input>, n: int)
    requires
        n < a.len(),
        n < b.len(),
        forall|k: int| 0 <= k <= n ==> a[k] == b[k],
    ensures
        thinned(a, n) == thinned(b, n),
    decreases n,
{
    if n > 0 {
        lemma_thinned_agrees(a, b, n - 1);
        assert(a[n - 1] == b[n - 1] && a[n] == b[n]);
    }
}

/// Where each input is handled in full before the next, what a session has sent on, with the move that
/// waits, are exactly the commands that it was given, less each move that another move follows at once.
pub proof fn law_only_replaced_moves_are_left_out(inputs: Seq<Input>)
    ensures
        with_waiting(session(inputs)) == thinned(inputs, inputs.len() as int),
    decreases inputs.len(),
{
    let n = inputs.len() as int;
    if n > 0 {
        let given = inputs.drop_last();
        let before = session(given);
        let after = session(inputs);
        law_only_replaced_moves_are_left_out(given);
        reveal_with_fuel(thinned, 3);
        reveal_with_fuel(session, 3);
        if n > 1 {
            lemma_thinned_agrees(inputs, given, n - 2);
            assert(given[n - 2] == inputs[n - 2]);
            assert(given.last() == inputs[n - 2]);
        }
        match inputs.last() {
            Input::Command(c) => {
                if is_move(c) {
                    if n > 1 && is_move_input(inputs[n - 2]) {
                        assert(with_waiting(before).drop_last() =~= before.sent);
                        assert(thinned(given, n - 1).drop_last() =~= thinned(given, n - 2));
                    }
                    assert(with_waiting(after) =~= before.sent.push(c));
                } else {
                    assert(with_waiting(after) =~= with_waiting(before).push(c));
                }
            },
            Input::Tick => {
                assert(with_waiting(after) =~= with_waiting(before));
            },
        }
    }
}

/// Where each input is handled in full before the next, the latest position is never lost: the last
/// command that was given has been sent on last, or it is a move that waits; and no move waits after a
/// tick or behind another command.
pub proof fn law_latest_command_is_sent_or_waits(inputs: Seq<Input>)
    requires
        commands(inputs).len() > 0,
    ensures
        with_waiting(session(inputs)).len() > 0,
        with_waiting(session(inputs)).last() == commands(inputs).last(),
        inputs.last() is Tick ==> session(inputs).slot is None,
        !is_move(commands(inputs).last()) ==> session(inputs).slot is None,
    decreases inputs.len(),
{
    let before = session(inputs.drop_last());
    if inputs.last() is Tick {
        law_latest_command_is_sent_or_waits(inputs.drop_last());
        assert(with_waiting(session(inputs)) =~= with_waiting(before));
    }
}

/// A move is a command that begins with the four digits `1012`, and nothing else is.
pub proof fn law_moves_begin_with_their_number(command: Seq<u8>)
    ensures
        is_move(command) <==> command.len() >= 4 && command[0] == 0x31 && command[1] == 0x30 && command[2] == 0x31
            && command[3] == 0x32,
{
    let tag = seq![0x31u8, 0x30u8, 0x31u8, 0x32u8];
    if command.len() >= 4 {
        let head = command.subrange(0, 4);
        if head =~= tag {
            assert(tag[0] == command[0] && tag[1] == command[1] && tag[2] == command[2] && tag[3] == command[3]);
        } else {
            assert(head[0] != tag[0] || head[1] != tag[1] || head[2] != tag[2] || head[3] != tag[3]);
        }
    }
}

/// What an event hands to a touch session: a binary message is a command, and so are the UTF-8 bytes of a
/// text message.
pub open spec fn input_of(event: TaskEvent<Seq<u8>, Seq<char>>) -> Option<Input> {
    match event {
        TaskEvent::Client(WsEvent::Binary(b)) => Some(Input::Command(b)),
        TaskEvent::Client(WsEvent::Text(t)) => Some(Input::Command(vstd::utf8::encode_utf8(t))),
        TaskEvent::Tick => Some(Input::Tick),
        _ => None,
    }
}

/// What the events hand to a touch session, in order.
pub open spec fn inputs_of(events: Seq<TaskEvent<Seq<u8>, Seq<char>>>) -> Seq<Input>
    decreases events.len(),
{
    if events.len() == 0 {
        Seq::empty()
    } else {
        let before = inputs_of(events.drop_last());
        match input_of(events.last()) {
            Some(input) => before.push(input),
            None => before,
        }
    }
}

/// The slot, and all that the two tasks of a session have been told to send in the course of `events`:
/// ticks come to the one that sends moves on, everything else to the one that reads the client.
pub open spec fn tasks(events: Seq<TaskEvent<Seq<u8>, Seq<char>>>) -> Step
    decreases events.len(),
{
    if events.len() == 0 {
        Step { slot: None, sent: Seq::empty() }
    } else {
        let before = tasks(events.drop_last());
        let (slot, action) = if events.last() is Tick {
            pump_action(before.slot, events.last())
        } else {
            client_action(before.slot, events.last())
        };
        Step {
            slot,
            sent: match action {
                Action::Send(l) => before.sent + l,
                _ => before.sent,
            },
        }
    }
}

/// Whether an event lets the tasks of a session go on.
pub open spec fn goes_on(event: TaskEvent<Seq<u8>, Seq<char>>) -> bool {
    match event {
        TaskEvent::Client(WsEvent::Binary(_)) => true,
        TaskEvent::Client(WsEvent::Text(_)) => true,
        TaskEvent::Client(WsEvent::Other) => true,
        TaskEvent::Tick => true,
        TaskEvent::Sent(ok) => ok,
        _ => false,
    }
}

/// What holds of touch sessions holds of their tasks: over any events that let them go on, what the two
/// tasks are told to send, and what waits in the slot, are those of the session whose inputs are the bytes
/// of the messages, binary or text, and the ticks, in order.
pub proof fn law_tasks_do_what_the_session_says(events: Seq<TaskEvent<Seq<u8>, Seq<char>>>)
    requires
        forall|k: int| 0 <= k < events.len() ==> goes_on(#[trigger] events[k]),
    ensures
        tasks(events) == session(inputs_of(events)),
    decreases events.len(),
{
    if events.len() > 0 {
        let before = events.drop_last();
        assert forall|k: int| 0 <= k < before.len() implies goes_on(#[trigger] before[k]) by {
            assert(before[k] == events[k]);
        }
        law_tasks_do_what_the_session_says(before);
        assert(goes_on(events[events.len() - 1]));
        match input_of(events.last()) {
            Some(input) => {
                assert(inputs_of(events).drop_last() =~= inputs_of(before));
                assert(tasks(events).sent =~= session(inputs_of(events)).sent);
            },
            None => {},
        }
    }
}

/// The bytes of the messages among `events`, binary or text, in order.
pub open spec fn messages(events: Seq<TaskEvent<Seq<u8>, Seq<char>>>) -> Seq<Seq<u8>>
    decreases events.len(),
{
    if events.len() == 0 {
        Seq::empty()
    } else {
        let before = messages(events.drop_last());
        match events.last() {
            TaskEvent::Client(WsEvent::Binary(b)) => before.push(b),
            TaskEvent::Client(WsEvent::Text(t)) => before.push(vstd::utf8::encode_utf8(t)),
            _ => before,
        }
    }
}

proof fn lemma_messages_are_commands(events: Seq<TaskEvent<Seq<u8>, Seq<char>>>)
    ensures
        commands(inputs_of(events)) == messages(events),
    decreases events.len(),
{
    if events.len() > 0 {
        lemma_messages_are_commands(events.drop_last());
        if input_of(events.last()) is Some {
            assert(inputs_of(events).drop_last() =~= inputs_of(events.drop_last()));
        }
    }
}

/// Every command that does not begin with `1012` reaches the device, from a binary message as from a text
/// message, unchanged, once and in order.
pub proof fn law_other_commands_reach_the_device(events: Seq<TaskEvent<Seq<u8>, Seq<char>>>)
    requires
        forall|k: int| 0 <= k < events.len() ==> goes_on(#[trigger] events[k]),
    ensures
        tasks(events).sent.filter(
            |c: Seq<u8>| !(c.len() >= 4 && c[0] == 0x31 && c[1] == 0x30 && c[2] == 0x31 && c[3] == 0x32),
        ) == messages(events).filter(
            |c: Seq<u8>| !(c.len() >= 4 && c[0] == 0x31 && c[1] == 0x30 && c[2] == 0x31 && c[3] == 0x32),
        ),
{
    let other = |c: Seq<u8>| !(c.len() >= 4 && c[0] == 0x31 && c[1] == 0x30 && c[2] == 0x31 && c[3] == 0x32);
    let keep = |c: Seq<u8>| !is_move(c);
    law_tasks_do_what_the_session_says(events);
    law_other_commands_are_kept_in_order(inputs_of(events));
    lemma_messages_are_commands(events);
    assert forall|c: Seq<u8>| #[trigger] other(c) == keep(c) by {
        law_moves_begin_with_their_number(c);
    }
    lemma_filters_agree(tasks(events).sent, other, keep);
    lemma_filters_agree(messages(events), other, keep);
}

proof fn lemma_filters_agree(s: Seq<Seq<u8>>, f: spec_fn(Seq<u8>) -> bool, g: spec_fn(Seq<u8>) -> bool)
    requires
        forall|c: Seq<u8>| #[trigger] f(c) == g(c),
    ensures
        s.filter(f) == s.filter(g),
    decreases s.len(),
{
    reveal(Seq::filter);
    if s.len() > 0 {
        lemma_filters_agree(s.drop_last(), f, g);
        assert(f(s.last()) == g(s.last()));
    }
}

/// When the two tasks end: the one that reads the client when the client closes, is gone or fails, the one
/// that sends moves on never by a tick, and both when sending fails or the session is cancelled. No event
/// that ends a task changes the slot.
pub proof fn law_touch_tasks_end_exactly_then(slot: Option<Seq<u8>>, event: TaskEvent<Seq<u8>, Seq<char>>)
    ensures
        client_action(slot, event).1 is End <==> event is Cancelled || event == TaskEvent::<
            Seq<u8>,
            Seq<char>,
        >::Client(WsEvent::Close) || event == TaskEvent::<Seq<u8>, Seq<char>>::Client(WsEvent::Failed) || event
            == TaskEvent::<Seq<u8>, Seq<char>>::Client(WsEvent::Ended) || event == TaskEvent::<
            Seq<u8>,
            Seq<char>,
        >::Sent(false),
        pump_action(slot, event).1 is End <==> event is Cancelled || event == TaskEvent::<
            Seq<u8>,
            Seq<char>,
        >::Sent(false),
        client_action(slot, event).1 is End ==> client_action(slot, event).0 == slot,
        pump_action(slot, event).1 is End ==> pump_action(slot, event).0 == slot,
        pump_action(slot, event).1 is Send <==> event is Tick && slot is Some,
{
}

} // verus!
