use std::sync::atomic::AtomicBool;
use std::sync::atomic::Ordering;
use std::sync::Arc;

use x11_key_remapper::child_process::ChildProcessState;
use x11_key_remapper::key_map::Key;
use x11_key_remapper::key_map::KeyMap;
use x11_key_remapper::xbridge::BridgeLedger;

fn table(text: &[&str]) -> KeyMap {
    let lines: Vec<Vec<u8>> = text.iter().map(|l| l.as_bytes().to_vec()).collect();
    KeyMap::from_lines(&lines).unwrap()
}

#[test]
fn a_first_grant_releases_nothing_and_acquires_the_table() {
    let mut ledger = BridgeLedger::new();
    let km = table(&["46 48", "Shift+10 20"]);
    let (to_ungrab, to_grab) = ledger.grab_keys(500, &km);
    assert_eq!(to_ungrab.len(), 0);
    assert_eq!(to_grab.len(), 2);
    assert!(to_grab.contains(&Key { code: 46, state: 0 }));
    assert!(to_grab.contains(&Key { code: 10, state: 0x1 }));
}

#[test]
fn replacing_a_grant_releases_the_old_table_in_full() {
    let mut ledger = BridgeLedger::new();
    let old_table = table(&["46 48", "Shift+10 20"]);
    let new_table = table(&["7 8"]);
    let (_, granted) = ledger.grab_keys(500, &old_table);
    let (released, acquired) = ledger.grab_keys(500, &new_table);
    // every previously granted chord is released, none is missing
    assert_eq!(released, granted);
    // and the new table's chords are acquired in full
    assert_eq!(acquired, vec![Key { code: 7, state: 0 }]);
}

#[test]
fn grants_on_other_windows_are_untouched() {
    let mut ledger = BridgeLedger::new();
    let km1 = table(&["46 48"]);
    let km2 = table(&["7 8"]);
    ledger.grab_keys(500, &km1);
    ledger.grab_keys(600, &km2);
    // replacing 600's grant again releases only 600's chords
    let (released, _) = ledger.grab_keys(600, &km1);
    assert_eq!(released, vec![Key { code: 7, state: 0 }]);
    // the first window still holds the table granted before
    let (released, _) = ledger.grab_keys(500, &km2);
    assert_eq!(released, vec![Key { code: 46, state: 0 }]);
}

#[test]
fn a_screen_is_subscribed_once() {
    let mut ledger = BridgeLedger::new();
    assert!(ledger.listen_for_window_creation(0));
    // the second registration must not subscribe again
    assert!(!ledger.listen_for_window_creation(0));
    assert!(ledger.listen_for_window_creation(1));
    assert!(!ledger.listen_for_window_creation(1));
    assert!(!ledger.listen_for_window_creation(0));
    assert_eq!(ledger.teardown_screens(), vec![0, 1]);
}

#[test]
fn teardown_lists_every_grant_for_release() {
    let mut ledger = BridgeLedger::new();
    let km1 = table(&["46 48"]);
    let km2 = table(&["7 8", "Ctrl+9 10"]);
    ledger.grab_keys(500, &km1);
    ledger.grab_keys(600, &km2);
    ledger.listen_for_window_creation(0);
    let ungrabs = ledger.teardown_ungrabs();
    assert_eq!(ungrabs.len(), 2);
    assert_eq!(ungrabs[0].0, 500);
    assert_eq!(ungrabs[0].1, vec![Key { code: 46, state: 0 }]);
    assert_eq!(ungrabs[1].0, 600);
    assert_eq!(
        ungrabs[1].1,
        vec![Key { code: 7, state: 0 }, Key { code: 9, state: 0x4 }]
    );
    assert_eq!(ledger.teardown_screens(), vec![0]);
}

#[test]
fn the_child_handle_reports_pid_and_exit() {
    let flag = Arc::new(AtomicBool::new(false));
    let child = ChildProcessState::new(Arc::clone(&flag), 4242);
    assert_eq!(child.pid(), 4242);
    assert!(!child.has_exited());
    // the watcher thread stores true once the process is gone
    flag.store(true, Ordering::SeqCst);
    assert!(child.has_exited());
}

#[test]
fn matches_filter_compares_optional_values() {
    assert!(x11_key_remapper::matches_filter::<u32>(None, None));
    assert!(x11_key_remapper::matches_filter(None, Some(5u32)));
    assert!(x11_key_remapper::matches_filter(Some(5u32), Some(5u32)));
    assert!(!x11_key_remapper::matches_filter(Some(5u32), Some(6u32)));
    assert!(!x11_key_remapper::matches_filter(Some(5u32), None));
}
