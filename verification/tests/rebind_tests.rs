use x11_key_remapper::key_map::Key;
use x11_key_remapper::key_map::KeyMap;
use x11_key_remapper::rebind::DesktopState;
use x11_key_remapper::rebind::WindowFilter;
use x11_key_remapper::rebind::WindowInfo;
use x11_key_remapper::xbridge::Command;
use x11_key_remapper::xbridge::XBridgeEvent;

fn table(text: &[&str]) -> KeyMap {
    let lines: Vec<Vec<u8>> = text.iter().map(|l| l.as_bytes().to_vec()).collect();
    KeyMap::from_lines(&lines).unwrap()
}

fn accept_all() -> WindowFilter {
    WindowFilter { class: None, pid: None }
}

fn info_none() -> WindowInfo {
    WindowInfo { class: None, pid: None }
}

/// Runs one accepted reparent notification for `window` and returns the
/// commands.
fn reparent(state: &mut DesktopState, window: u64) -> Vec<Command> {
    state.handle_window_reparent(window, 0)
}

#[test]
fn a_fresh_window_is_queued_and_a_frame_requested() {
    let mut state = DesktopState::new();
    let cmds = reparent(&mut state, 100);
    assert_eq!(cmds.len(), 1);
    assert!(matches!(cmds[0], Command::CreateWindow { screen: 0 }));
}

#[test]
fn a_duplicate_reparent_notification_is_a_no_op() {
    let km = table(&["46 48"]);
    let mut state = DesktopState::new();
    assert_eq!(reparent(&mut state, 100).len(), 1);
    // still queued: the duplicate must not enqueue again or create a frame
    assert_eq!(reparent(&mut state, 100).len(), 0);
    // adopt it, then a further duplicate must still be a no-op
    let cmds = state.handle_parent_expose(200, &km);
    assert_eq!(cmds.len(), 3);
    assert_eq!(reparent(&mut state, 100).len(), 0);
    // and the queue really is empty: a fresh exposure claims nothing
    assert_eq!(state.handle_parent_expose(201, &km).len(), 0);
}

#[test]
fn exposures_claim_queued_children_in_fifo_order() {
    let km = table(&["46 48"]);
    let mut state = DesktopState::new();
    assert_eq!(reparent(&mut state, 11).len(), 1);
    assert_eq!(reparent(&mut state, 22).len(), 1);
    assert_eq!(reparent(&mut state, 33).len(), 1);
    // whatever frames expose, the first exposure claims the oldest child
    for (frame, child) in [(900u64, 11u64), (500, 22), (700, 33)] {
        let cmds = state.handle_parent_expose(frame, &km);
        assert_eq!(cmds.len(), 3);
        assert!(
            matches!(cmds[0], Command::ReparentWindow { child: c, parent: p } if c == child && p == frame)
        );
        assert!(matches!(cmds[1], Command::GrabKeys { window, .. } if window == frame));
        assert!(matches!(cmds[2], Command::FocusWindow { window } if window == child));
    }
}

#[test]
fn an_exposure_of_an_adopted_frame_resizes_its_child() {
    let km = table(&["46 48"]);
    let mut state = DesktopState::new();
    reparent(&mut state, 100);
    state.handle_parent_expose(200, &km);
    let cmds = state.handle_parent_expose(200, &km);
    assert_eq!(cmds.len(), 1);
    assert!(matches!(cmds[0], Command::ResizeToParent { child: 100, parent: 200 }));
}

#[test]
fn a_stale_exposure_with_an_empty_queue_does_nothing() {
    let km = table(&["46 48"]);
    let mut state = DesktopState::new();
    assert_eq!(state.handle_parent_expose(200, &km).len(), 0);
}

#[test]
fn a_mapped_chord_is_rewritten_for_the_child() {
    let km = table(&["46 48", "Shift+10 Ctrl+20"]);
    let mut state = DesktopState::new();
    reparent(&mut state, 100);
    state.handle_parent_expose(200, &km);
    let cmds = state.handle_key_press(200, Key { code: 46, state: 0 }, &km);
    assert_eq!(cmds.len(), 1);
    assert!(matches!(
        cmds[0],
        Command::SendKeyEvent { window: 100, key: Key { code: 48, state: 0 } }
    ));
    let cmds = state.handle_key_press(200, Key { code: 10, state: 0x1 }, &km);
    assert!(matches!(
        cmds[0],
        Command::SendKeyEvent { window: 100, key: Key { code: 20, state: 0x4 } }
    ));
}

#[test]
fn an_unmapped_chord_passes_through_unchanged() {
    let km = table(&["46 48"]);
    let mut state = DesktopState::new();
    reparent(&mut state, 100);
    state.handle_parent_expose(200, &km);
    let cmds = state.handle_key_press(200, Key { code: 99, state: 0x5 }, &km);
    assert_eq!(cmds.len(), 1);
    assert!(matches!(
        cmds[0],
        Command::SendKeyEvent { window: 100, key: Key { code: 99, state: 0x5 } }
    ));
}

#[test]
fn a_key_press_on_an_unknown_frame_is_dropped() {
    let km = table(&["46 48"]);
    let mut state = DesktopState::new();
    assert_eq!(state.handle_key_press(777, Key { code: 46, state: 0 }, &km).len(), 0);
}

#[test]
fn a_geometry_change_resizes_the_child() {
    let km = table(&["46 48"]);
    let mut state = DesktopState::new();
    reparent(&mut state, 100);
    state.handle_parent_expose(200, &km);
    let cmds = state.handle_parent_update(200, 640, 480);
    assert_eq!(cmds.len(), 1);
    assert!(matches!(cmds[0], Command::ResizeTo { window: 100, width: 640, height: 480 }));
    assert_eq!(state.handle_parent_update(999, 1, 1).len(), 0);
}

#[test]
fn frame_focus_is_forwarded_to_the_child() {
    let km = table(&["46 48"]);
    let mut state = DesktopState::new();
    reparent(&mut state, 100);
    state.handle_parent_expose(200, &km);
    let cmds = state.handle_parent_focus(200);
    assert_eq!(cmds.len(), 1);
    assert!(matches!(cmds[0], Command::FocusWindow { window: 100 }));
    assert_eq!(state.handle_parent_focus(999).len(), 0);
}

#[test]
fn teardown_takes_two_phases() {
    let km = table(&["46 48"]);
    let mut state = DesktopState::new();
    reparent(&mut state, 100);
    state.handle_parent_expose(200, &km);

    // phase one: the close request detaches the child and dooms the frame
    let cmds = state.handle_destroy_request(200);
    assert_eq!(cmds.len(), 1);
    assert!(matches!(cmds[0], Command::NotifyChildShouldClose { child: 100, parent: 200 }));

    // the record is now exiting: keys are dropped, a second request is a no-op
    assert_eq!(state.handle_key_press(200, Key { code: 46, state: 0 }, &km).len(), 0);
    assert_eq!(state.handle_destroy_request(200).len(), 0);

    // a destroy notification for an unrelated window leaves the record
    state.handle_destroy_notify(555);
    assert_eq!(state.handle_destroy_request(200).len(), 0);
    // the window is still accounted for: reparenting it again is refused
    assert_eq!(reparent(&mut state, 100).len(), 0);

    // a destroy notification for the frame itself does not remove it either
    state.handle_destroy_notify(200);
    assert_eq!(reparent(&mut state, 100).len(), 0);

    // phase two: the child's destroy notification removes the record
    state.handle_destroy_notify(100);
    assert_eq!(reparent(&mut state, 100).len(), 1);
}

#[test]
fn a_destroy_request_for_an_unknown_frame_is_ignored() {
    let mut state = DesktopState::new();
    assert_eq!(state.handle_destroy_request(123).len(), 0);
}

#[test]
fn the_filter_matches_class_and_pid_clauses() {
    let f = WindowFilter { class: Some("xterm".to_string()), pid: Some(7) };
    assert!(f.accepts(&WindowInfo { class: Some("xterm".to_string()), pid: Some(7) }));
    assert!(!f.accepts(&WindowInfo { class: Some("other".to_string()), pid: Some(7) }));
    assert!(!f.accepts(&WindowInfo { class: Some("xterm".to_string()), pid: Some(8) }));
    assert!(!f.accepts(&WindowInfo { class: None, pid: Some(7) }));
    assert!(!f.accepts(&WindowInfo { class: Some("xterm".to_string()), pid: None }));
}

#[test]
fn an_absent_filter_clause_matches_anything() {
    assert!(accept_all().accepts(&info_none()));
    assert!(accept_all().accepts(&WindowInfo { class: Some("x".to_string()), pid: Some(1) }));
    let class_only = WindowFilter { class: Some("xterm".to_string()), pid: None };
    assert!(class_only.accepts(&WindowInfo { class: Some("xterm".to_string()), pid: None }));
    let pid_only = WindowFilter { class: None, pid: Some(3) };
    assert!(pid_only.accepts(&WindowInfo { class: None, pid: Some(3) }));
}

#[test]
fn handle_event_routes_and_filters() {
    // the concrete end-to-end scenario: one remap rule, a class filter
    let km = table(&["46 48"]);
    let filter = WindowFilter { class: Some("xterm".to_string()), pid: None };
    let mut state = DesktopState::new();

    // an xterm window reparents: it is accepted and a frame is requested
    let cmds = state.handle_event(
        XBridgeEvent::ReparentNotify { window: 100 },
        &WindowInfo { class: Some("xterm".to_string()), pid: Some(41) },
        &filter,
        &km,
        0,
    );
    assert_eq!(cmds.len(), 1);
    assert!(matches!(cmds[0], Command::CreateWindow { screen: 0 }));

    // the frame exposes: the xterm window is adopted under it
    let cmds = state.handle_event(XBridgeEvent::Expose { parent: 200 }, &info_none(), &filter, &km, 0);
    assert_eq!(cmds.len(), 3);
    assert!(matches!(cmds[0], Command::ReparentWindow { child: 100, parent: 200 }));

    // key (46,0) pressed on the frame arrives at the child as (48,0)
    let cmds = state.handle_event(
        XBridgeEvent::KeyPress { key: Key { code: 46, state: 0 }, parent: 200 },
        &info_none(),
        &filter,
        &km,
        0,
    );
    assert_eq!(cmds.len(), 1);
    assert!(matches!(
        cmds[0],
        Command::SendKeyEvent { window: 100, key: Key { code: 48, state: 0 } }
    ));

    // a window of another class produces no frame and no queue entry
    let cmds = state.handle_event(
        XBridgeEvent::ReparentNotify { window: 300 },
        &WindowInfo { class: Some("other".to_string()), pid: Some(42) },
        &filter,
        &km,
        0,
    );
    assert_eq!(cmds.len(), 0);
    // nothing was queued for it: an exposure of a fresh frame claims nothing
    assert_eq!(
        state.handle_event(XBridgeEvent::Expose { parent: 201 }, &info_none(), &filter, &km, 0).len(),
        0
    );
}

#[test]
fn destroy_events_route_through_handle_event() {
    let km = table(&["46 48"]);
    let filter = accept_all();
    let mut state = DesktopState::new();
    state.handle_event(XBridgeEvent::ReparentNotify { window: 100 }, &info_none(), &filter, &km, 0);
    state.handle_event(XBridgeEvent::Expose { parent: 200 }, &info_none(), &filter, &km, 0);
    let cmds = state.handle_event(
        XBridgeEvent::DestroyRequest { window: 200 },
        &info_none(),
        &filter,
        &km,
        0,
    );
    assert_eq!(cmds.len(), 1);
    assert!(matches!(cmds[0], Command::NotifyChildShouldClose { child: 100, parent: 200 }));
    let cmds = state.handle_event(
        XBridgeEvent::DestroyNotify { window: 100 },
        &info_none(),
        &filter,
        &km,
        0,
    );
    assert_eq!(cmds.len(), 0);
    // the record is gone: the window may be adopted afresh
    let cmds = state.handle_event(
        XBridgeEvent::ReparentNotify { window: 100 },
        &info_none(),
        &filter,
        &km,
        0,
    );
    assert_eq!(cmds.len(), 1);
    // focus and geometry events route too
    assert_eq!(
        state.handle_event(XBridgeEvent::ParentFocus { parent: 9 }, &info_none(), &filter, &km, 0).len(),
        0
    );
    assert_eq!(
        state
            .handle_event(
                XBridgeEvent::ConfigureNotify { width: 1, height: 1, parent: 9 },
                &info_none(),
                &filter,
                &km,
                0,
            )
            .len(),
        0
    );
}
