//! The protocol-facing vocabulary of the state machine, and the ledger of
//! server-side grants the bridge holds.
//!
//! The display connection itself lives in the embedding program; this
//! module decides, per window, which key chords to release and acquire
//! when a remap table is (re)granted, and which screens still need a
//! creation-listener registration — the bookkeeping the bridge must get
//! right so grants are replaced atomically and released on teardown.

use vstd::prelude::*;

use crate::assoc::assoc_map;
use crate::assoc::assoc_unique;
use crate::assoc::lemma_assoc_map_domain;
use crate::assoc::lemma_assoc_map_entry;
use crate::assoc::lemma_assoc_map_update;
use crate::key_map::firsts_of;
use crate::key_map::Key;
use crate::key_map::KeyMap;

verus! {

/// An opaque window identifier assigned by the display server.
pub type WindowHandle = u64;

/// A screen number on the display.
pub type ScreenId = i32;

/// The closed set of server events the state machine reacts to; the
/// embedding program decodes raw server events into these and silently
/// skips every other event type.
#[derive(Clone, Copy, PartialEq, Eq, Structural, Debug)]
pub enum XBridgeEvent {
    KeyPress { key: Key, parent: WindowHandle },
    Expose { parent: WindowHandle },
    ConfigureNotify { width: u32, height: u32, parent: WindowHandle },
    ReparentNotify { window: WindowHandle },
    DestroyRequest { window: WindowHandle },
    DestroyNotify { window: WindowHandle },
    ParentFocus { parent: WindowHandle },
}

/// A protocol operation the state machine instructs the bridge to issue.
pub enum Command {
    /// Read `parent`'s geometry and apply it to `child`.
    ResizeToParent { child: WindowHandle, parent: WindowHandle },
    /// Resize `window` to the given geometry.
    ResizeTo { window: WindowHandle, width: u32, height: u32 },
    /// Reparent `child` under `parent` at the origin and remap it.
    ReparentWindow { child: WindowHandle, parent: WindowHandle },
    /// Grab every input chord of `key_map` on `window`, releasing any
    /// previously granted table first.
    GrabKeys { window: WindowHandle, key_map: KeyMap },
    /// Direct input focus to `window`.
    FocusWindow { window: WindowHandle },
    /// Deliver a synthetic key-press for `key` to `window`.
    SendKeyEvent { window: WindowHandle, key: Key },
    /// Create a fresh frame window on `screen`.
    CreateWindow { screen: ScreenId },
    /// Detach `child` back to the root, destroy the `parent` frame, and
    /// send `child` the close-protocol message.
    NotifyChildShouldClose { child: WindowHandle, parent: WindowHandle },
}

/// The bridge's ledger of server-side grants: which remap table is grabbed
/// on which window, and which screens already carry a creation-listener
/// registration.
pub struct BridgeLedger {
    grabbed_keys: Vec<(WindowHandle, KeyMap)>,
    window_creation_listening_screens: Vec<ScreenId>,
}

/// Registering a screen that is already listening changes nothing; a fresh
/// screen is appended once.
pub open spec fn spec_listen(screens: Seq<ScreenId>, screen: ScreenId) -> Seq<ScreenId> {
    if screens.contains(screen) {
        screens
    } else {
        screens.push(screen)
    }
}

impl BridgeLedger {
    /// Each window holds at most one granted table, and each screen at
    /// most one registration.
    pub open spec fn wf(&self) -> bool {
        &&& assoc_unique(self.tables())
        &&& (forall|i: int, j: int|
            0 <= i < j < self.screens().len() ==> self.screens()[i] != self.screens()[j])
    }

    /// The granted tables, one pair per window.
    pub closed spec fn tables(&self) -> Seq<(WindowHandle, KeyMap)> {
        self.grabbed_keys@
    }

    /// The screens that carry a creation-listener registration, in
    /// registration order.
    pub closed spec fn screens(&self) -> Seq<ScreenId> {
        self.window_creation_listening_screens@
    }

    /// The map from a window to the remap table granted on it.
    pub open spec fn tables_map(&self) -> Map<WindowHandle, KeyMap> {
        assoc_map(self.tables())
    }

    /// The chords currently grabbed on `window`: the input chords of its
    /// granted table, none when no table was granted.
    pub open spec fn grabbed_chords(&self, window: WindowHandle) -> Seq<Key> {
        if self.tables_map().contains_key(window) {
            firsts_of(self.tables_map()[window]@)
        } else {
            Seq::empty()
        }
    }

    /// A ledger with no grants at all.
    pub fn new() -> (r: BridgeLedger)
        ensures
            r.wf(),
            r.tables() =~= Seq::<(WindowHandle, KeyMap)>::empty(),
            r.screens() =~= Seq::<ScreenId>::empty(),
    {
        BridgeLedger { grabbed_keys: Vec::new(), window_creation_listening_screens: Vec::new() }
    }

    /// Grants `key_map` on `window` and decides the chord operations the
    /// bridge must issue: first release every chord of the previously
    /// granted table, then acquire every input chord of the new one — an
    /// all-or-nothing replacement, so no chord of the old table stays
    /// grabbed and no chord of the new table is missing.
    #[verifier::loop_isolation(false)]
    pub fn grab_keys(&mut self, window: WindowHandle, key_map: &KeyMap) -> (r: (Vec<Key>, Vec<
        Key,
    >))
        requires
            old(self).wf(),
        ensures
            final(self).wf(),
            r.0@ == old(self).grabbed_chords(window),
            r.1@ == firsts_of(key_map@),
            final(self).grabbed_chords(window) == firsts_of(key_map@),
            final(self).tables_map().dom() =~= old(self).tables_map().dom().insert(window),
            forall|w: WindowHandle|
                w != window ==> #[trigger] final(self).grabbed_chords(w) == old(
                    self,
                ).grabbed_chords(w),
            final(self).screens() == old(self).screens(),
    {
        let ghost orig = self.grabbed_keys@;
        let to_grab = key_map.keys();
        let replacement = key_map.clone();
        let n = self.grabbed_keys.len();
        for i in 0..n
            invariant
                n == self.grabbed_keys@.len(),
                self.grabbed_keys@ == orig,
                self.window_creation_listening_screens@ == old(self).screens(),
                forall|j: int| 0 <= j < i ==> (#[trigger] orig[j]).0 != window,
        {
            if self.grabbed_keys[i].0 == window {
                let to_ungrab = self.grabbed_keys[i].1.keys();
                self.grabbed_keys.set(i, (window, replacement));
                proof {
                    lemma_assoc_map_entry(orig, i as int);
                    lemma_assoc_map_update(orig, i as int, window, self.grabbed_keys@[i as int].1);
                    assert forall|j: int| 0 <= j < self.grabbed_keys@.len() implies (
                    #[trigger] self.grabbed_keys@[j]).0 == orig[j].0 by {
                        assert(orig[i as int].0 == window);
                    }
                    assert(self.tables_map().dom() =~= old(self).tables_map().dom().insert(
                        window,
                    ));
                }
                return (to_ungrab, to_grab);
            }
        }
        let to_ungrab: Vec<Key> = Vec::new();
        self.grabbed_keys.push((window, replacement));
        proof {
            lemma_assoc_map_domain(orig);
            assert(!old(self).tables_map().contains_key(window));
            assert(self.grabbed_keys@.drop_last() =~= orig);
            assert forall|j: int, l: int| 0 <= j < l < self.grabbed_keys@.len() implies (
            #[trigger] self.grabbed_keys@[j]).0 != (#[trigger] self.grabbed_keys@[l]).0 by {
                if l == self.grabbed_keys@.len() - 1 {
                    assert(orig[j].0 != window);
                }
            }
            assert(self.tables_map().dom() =~= old(self).tables_map().dom().insert(window));
        }
        (to_ungrab, to_grab)
    }

    /// Registers `screen` for window-creation notifications. Returns
    /// whether the bridge must issue the underlying server subscription:
    /// `true` only the first time a screen is registered, so repeated
    /// calls subscribe once.
    #[verifier::loop_isolation(false)]
    pub fn listen_for_window_creation(&mut self, screen: ScreenId) -> (subscribe: bool)
        requires
            old(self).wf(),
        ensures
            final(self).wf(),
            subscribe == !old(self).screens().contains(screen),
            final(self).screens() == spec_listen(old(self).screens(), screen),
            final(self).screens().contains(screen),
            final(self).tables() == old(self).tables(),
    {
        let n = self.window_creation_listening_screens.len();
        for i in 0..n
            invariant
                n == self.window_creation_listening_screens@.len(),
                self.window_creation_listening_screens@ == old(self).screens(),
                self.grabbed_keys@ == old(self).tables(),
                forall|j: int| 0 <= j < i ==> old(self).screens()[j] != screen,
        {
            if self.window_creation_listening_screens[i] == screen {
                return false;
            }
        }
        self.window_creation_listening_screens.push(screen);
        proof {
            assert(!old(self).screens().contains(screen));
            assert(self.screens()[self.screens().len() - 1] == screen);
            assert forall|i: int, j: int| 0 <= i < j < self.screens().len() implies self.screens()[i]
                != self.screens()[j] by {
                if j == self.screens().len() - 1 {
                    assert(old(self).screens()[i] != screen);
                }
            }
        }
        true
    }

    /// The chords still to release at teardown: every granted window with
    /// the input chords of its table.
    pub fn teardown_ungrabs(&self) -> (r: Vec<(WindowHandle, Vec<Key>)>)
        ensures
            r@.len() == self.tables().len(),
            forall|i: int|
                0 <= i < r@.len() ==> (#[trigger] r@[i]).0 == self.tables()[i].0 && r@[i].1@
                    == firsts_of(self.tables()[i].1@),
    {
        let mut out: Vec<(WindowHandle, Vec<Key>)> = Vec::new();
        let n = self.grabbed_keys.len();
        for i in 0..n
            invariant
                n == self.tables().len(),
                out@.len() == i,
                forall|j: int|
                    0 <= j < i ==> (#[trigger] out@[j]).0 == self.tables()[j].0 && out@[j].1@
                        == firsts_of(self.tables()[j].1@),
        {
            let keys = self.grabbed_keys[i].1.keys();
            out.push((self.grabbed_keys[i].0, keys));
        }
        out
    }

    /// The screens whose creation-listener registrations are still to be
    /// released at teardown.
    pub fn teardown_screens(&self) -> (r: Vec<ScreenId>)
        ensures
            r@ == self.screens(),
    {
        let mut out: Vec<ScreenId> = Vec::new();
        let n = self.window_creation_listening_screens.len();
        for i in 0..n
            invariant
                n == self.screens().len(),
                out@.len() == i,
                forall|j: int| 0 <= j < i ==> #[trigger] out@[j] == self.screens()[j],
        {
            out.push(self.window_creation_listening_screens[i]);
        }
        proof {
            assert(out@ =~= self.screens());
        }
        out
    }
}

/// Replacing a window's remap table is atomic: on a server that held
/// exactly the released chords, issuing the releases and then the
/// acquisitions leaves exactly the acquired chords grabbed — no chord of
/// the old table survives, no chord of the new table is missing.
pub proof fn lemma_grab_replace_atomic(server: Set<Key>, to_ungrab: Seq<Key>, to_grab: Seq<Key>)
    requires
        server =~= to_ungrab.to_set(),
    ensures
        server.difference(to_ungrab.to_set()).union(to_grab.to_set()) =~= to_grab.to_set(),
{
}

/// Registering a screen twice is the same as registering it once: the
/// second call leaves the ledger unchanged, so the underlying server
/// subscription is issued a single time.
pub proof fn lemma_listen_idempotent(screens: Seq<ScreenId>, screen: ScreenId)
    ensures
        spec_listen(spec_listen(screens, screen), screen) == spec_listen(screens, screen),
{
    assert(spec_listen(screens, screen).contains(screen)) by {
        if !screens.contains(screen) {
            assert(screens.push(screen)[screens.len() as int] == screen);
        }
    }
}

} // verus!
