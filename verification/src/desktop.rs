//! The icon in the desktop's tray, and its menu.

use vstd::prelude::*;

verus! {

/// The entries of the menu.
#[derive(Clone, Copy, Debug, PartialEq, Eq, Structural)]
pub enum MenuChoice {
    Open,
    AutoRun,
    Quit,
}

/// What happens on the desktop.
#[derive(Clone, Copy, Debug, PartialEq, Eq, Structural)]
pub enum DesktopEvent {
    /// The program was started. `alone` tells whether it is not running already.
    Launched { alone: bool },
    /// The event loop has begun.
    LoopBegan,
    /// The program was opened again while it runs.
    Reopened,
    /// An entry of the menu was chosen. `auto_run` tells whether the program runs at startup.
    Chosen { choice: MenuChoice, auto_run: bool },
    /// The left button was pressed on the icon.
    IconPressed,
}

/// What to do on the desktop.
#[derive(Clone, Copy, Debug, PartialEq, Eq, Structural)]
pub enum DesktopAction {
    OpenBrowser,
    Serve,
    ShowIcon,
    HideIcon,
    /// Run at startup from now on, or no longer, and mark the entry of the menu accordingly.
    SetAutoRun(bool),
    /// Stop the server and wait for its end.
    StopServer,
    Exit,
}

/// What follows from an event, in order. A second start only opens the browser.
pub open spec fn desktop_actions(event: DesktopEvent) -> Seq<DesktopAction> {
    match event {
        DesktopEvent::Launched { alone } => if alone {
            seq![DesktopAction::Serve]
        } else {
            seq![DesktopAction::OpenBrowser, DesktopAction::Exit]
        },
        DesktopEvent::LoopBegan => seq![DesktopAction::ShowIcon],
        DesktopEvent::Reopened => seq![DesktopAction::OpenBrowser],
        DesktopEvent::Chosen { choice, auto_run } => match choice {
            MenuChoice::Open => seq![DesktopAction::OpenBrowser],
            MenuChoice::AutoRun => seq![DesktopAction::SetAutoRun(!auto_run)],
            MenuChoice::Quit => seq![
                DesktopAction::HideIcon,
                DesktopAction::StopServer,
                DesktopAction::Exit,
            ],
        },
        DesktopEvent::IconPressed => seq![DesktopAction::OpenBrowser],
    }
}

/// What follows from an event, in order.
pub fn desktop_step(event: DesktopEvent) -> (r: Vec<DesktopAction>)
    ensures
        r@ == desktop_actions(event),
{
    match event {
        DesktopEvent::Launched { alone } => if alone {
            vec![DesktopAction::Serve]
        } else {
            vec![DesktopAction::OpenBrowser, DesktopAction::Exit]
        },
        DesktopEvent::LoopBegan => vec![DesktopAction::ShowIcon],
        DesktopEvent::Reopened => vec![DesktopAction::OpenBrowser],
        DesktopEvent::Chosen { choice, auto_run } => match choice {
            MenuChoice::Open => vec![DesktopAction::OpenBrowser],
            MenuChoice::AutoRun => vec![DesktopAction::SetAutoRun(!auto_run)],
            MenuChoice::Quit => vec![
                DesktopAction::HideIcon,
                DesktopAction::StopServer,
                DesktopAction::Exit,
            ],
        },
        DesktopEvent::IconPressed => vec![DesktopAction::OpenBrowser],
    }
}

/// The program exits only when it was running already or when quitting is chosen, and then it
/// does nothing after that.
pub proof fn law_only_quitting_exits(event: DesktopEvent)
    ensures
        desktop_actions(event).contains(DesktopAction::Exit) <==> (event matches DesktopEvent::Launched {
            alone: false,
        } || event matches DesktopEvent::Chosen { choice: MenuChoice::Quit, .. }),
        desktop_actions(event).contains(DesktopAction::Exit) ==> desktop_actions(event).last()
            == DesktopAction::Exit,
{
    let actions = desktop_actions(event);
    if event matches DesktopEvent::Launched { alone: false } {
        assert(actions[1] == DesktopAction::Exit);
    } else if event matches DesktopEvent::Chosen { choice: MenuChoice::Quit, .. } {
        assert(actions[2] == DesktopAction::Exit);
    }
}

/// Choosing twice to run at startup, or not to, changes nothing in the end.
pub proof fn law_choosing_auto_run_twice_changes_nothing(auto_run: bool)
    ensures
        desktop_actions(DesktopEvent::Chosen { choice: MenuChoice::AutoRun, auto_run }) == seq![
            DesktopAction::SetAutoRun(!auto_run),
        ],
        desktop_actions(DesktopEvent::Chosen { choice: MenuChoice::AutoRun, auto_run: !auto_run }) == seq![
            DesktopAction::SetAutoRun(auto_run),
        ],
{
}

/// The browser is opened, the server started and the icon shown or hidden exactly then; and nothing else is
/// done: each event has one action, but for a second start and for quitting.
pub proof fn law_each_event_does_its_own(event: DesktopEvent)
    ensures
        ({
            let actions = desktop_actions(event);
            &&& actions.contains(DesktopAction::OpenBrowser) <==> (event matches DesktopEvent::Launched { alone: false })
                || event is Reopened || event is IconPressed || (event matches DesktopEvent::Chosen {
                choice: MenuChoice::Open,
                ..
            })
            &&& actions.contains(DesktopAction::Serve) <==> (event matches DesktopEvent::Launched { alone: true })
            &&& actions.contains(DesktopAction::ShowIcon) <==> event is LoopBegan
            &&& actions.contains(DesktopAction::StopServer) <==> (event matches DesktopEvent::Chosen {
                choice: MenuChoice::Quit,
                ..
            })
            &&& actions.contains(DesktopAction::HideIcon) <==> actions.contains(DesktopAction::StopServer)
            &&& forall|on: bool| #[trigger]
                actions.contains(DesktopAction::SetAutoRun(on)) <==> (event matches DesktopEvent::Chosen {
                    choice: MenuChoice::AutoRun,
                    auto_run,
                } && on != auto_run)
            &&& actions.contains(DesktopAction::StopServer) ==> actions == seq![
                DesktopAction::HideIcon,
                DesktopAction::StopServer,
                DesktopAction::Exit,
            ]
            &&& (event matches DesktopEvent::Launched { alone: false }) ==> actions == seq![
                DesktopAction::OpenBrowser,
                DesktopAction::Exit,
            ]
            &&& !actions.contains(DesktopAction::Exit) ==> actions.len() == 1
        }),
{
    let actions = desktop_actions(event);
    assert(actions.len() > 0);
    assert(actions.contains(actions[0]));
    if actions.len() > 1 {
        assert(actions.contains(actions[1]));
    }
    if actions.len() > 2 {
        assert(actions.contains(actions[2]));
    }
}

} // verus!
