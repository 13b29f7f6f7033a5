use tango_bridge::desktop::{desktop_step, DesktopAction, DesktopEvent, MenuChoice};

#[test]
fn second_start_opens_the_browser_and_exits() {
    assert_eq!(desktop_step(DesktopEvent::Launched { alone: true }), vec![DesktopAction::Serve]);
    assert_eq!(
        desktop_step(DesktopEvent::Launched { alone: false }),
        vec![DesktopAction::OpenBrowser, DesktopAction::Exit]
    );
}

#[test]
fn icon_and_menu_do_what_they_say() {
    assert_eq!(desktop_step(DesktopEvent::LoopBegan), vec![DesktopAction::ShowIcon]);
    assert_eq!(desktop_step(DesktopEvent::Reopened), vec![DesktopAction::OpenBrowser]);
    assert_eq!(desktop_step(DesktopEvent::IconPressed), vec![DesktopAction::OpenBrowser]);
    let chosen = |choice, auto_run| desktop_step(DesktopEvent::Chosen { choice, auto_run });
    assert_eq!(chosen(MenuChoice::Open, true), vec![DesktopAction::OpenBrowser]);
    assert_eq!(chosen(MenuChoice::AutoRun, true), vec![DesktopAction::SetAutoRun(false)]);
    assert_eq!(chosen(MenuChoice::AutoRun, false), vec![DesktopAction::SetAutoRun(true)]);
    assert_eq!(
        chosen(MenuChoice::Quit, false),
        vec![DesktopAction::HideIcon, DesktopAction::StopServer, DesktopAction::Exit]
    );
}
