//! The window-adoption state machine: the single authority over the
//! parent-to-child record table and the pending-adoption queue, deciding
//! per domain event which protocol operations the bridge must issue.
//!
//! Frames (parents) are created by this system; client windows (children)
//! appear asynchronously. A filter-accepted child is queued until the
//! first exposure of a frame with no record claims it — FIFO, so children
//! are adopted in discovery order. Teardown is two-phase: a close request
//! moves a record to `Exiting`, and only the later destroy notification
//! for the child removes it.

use vstd::prelude::*;

use crate::assoc::assoc_map;
use crate::assoc::assoc_unique;
use crate::assoc::lemma_assoc_map_domain;
use crate::assoc::lemma_assoc_map_entry;
use crate::assoc::lemma_assoc_map_push;
use crate::assoc::lemma_assoc_map_update;
use crate::key_map::Key;
use crate::key_map::KeyMap;
use crate::matches_filter;
use crate::xbridge::Command;
use crate::xbridge::ScreenId;
use crate::xbridge::WindowHandle;
use crate::xbridge::XBridgeEvent;

verus! {

/// The state of one adoption record: the frame actively forwards events to
/// its child, or a close has been requested and the record only waits for
/// the child's destroy notification.
#[derive(PartialEq, Eq, Clone, Copy, Structural, Debug)]
pub enum WindowState {
    Valid(WindowHandle),
    Exiting(WindowHandle),
}

/// The child window a record refers to, in either state.
pub open spec fn child_of(ws: WindowState) -> WindowHandle {
    match ws {
        WindowState::Valid(c) => c,
        WindowState::Exiting(c) => c,
    }
}

/// The metadata of a candidate window, as far as the server knows it.
pub struct WindowInfo {
    pub class: Option<String>,
    pub pid: Option<u32>,
}

/// The acceptance predicate over candidate windows: an absent clause
/// matches anything, a present clause requires the matching metadata to be
/// present and equal.
pub struct WindowFilter {
    pub class: Option<String>,
    pub pid: Option<u32>,
}

impl WindowFilter {
    /// Whether `info` passes both the class clause and the pid clause.
    pub open spec fn spec_accepts(&self, info: &WindowInfo) -> bool {
        &&& match self.class {
            None => true,
            Some(ref f) => match info.class {
                Some(ref v) => v@ == f@,
                None => false,
            },
        }
        &&& match self.pid {
            None => true,
            Some(f) => match info.pid {
                Some(v) => v == f,
                None => false,
            },
        }
    }

    /// Evaluates the filter against a window's metadata.
    pub fn accepts(&self, info: &WindowInfo) -> (r: bool)
        ensures
            r == self.spec_accepts(info),
    {
        let matches_class = match (&self.class, &info.class) {
            (None, _) => true,
            (Some(_), None) => false,
            (Some(f), Some(v)) => *v == *f,
        };
        let matches_pid = matches_filter(self.pid, info.pid);
        matches_class && matches_pid
    }
}

/// The abstract state of the machine: the record table as a finite map and
/// the pending-adoption queue as a sequence.
pub ghost struct StateModel {
    pub records: Map<WindowHandle, WindowState>,
    pub queue: Seq<WindowHandle>,
}

/// A child window appears in at most one place: the queue holds no
/// duplicates, no queued window is any record's child, and no two records
/// share a child.
pub open spec fn model_wf(m: StateModel) -> bool {
    &&& (forall|i: int, j: int| 0 <= i < j < m.queue.len() ==> m.queue[i] != m.queue[j])
    &&& (forall|i: int, p: WindowHandle|
        #![trigger m.queue[i], m.records[p]]
        0 <= i < m.queue.len() && m.records.contains_key(p) ==> m.queue[i] != child_of(
            m.records[p],
        ))
    &&& (forall|p1: WindowHandle, p2: WindowHandle|
        #![trigger m.records[p1], m.records[p2]]
        m.records.contains_key(p1) && m.records.contains_key(p2) && p1 != p2 ==> child_of(
            m.records[p1],
        ) != child_of(m.records[p2]))
}

/// Whether `window` is already accounted for: queued, or some record's
/// child.
pub open spec fn spec_child_known(m: StateModel, window: WindowHandle) -> bool {
    ||| m.queue.contains(window)
    ||| exists|p: WindowHandle|
        #[trigger] m.records.contains_key(p) && child_of(m.records[p]) == window
}

/// The chord a key press is rewritten to: the table's entry, or the chord
/// itself when the table holds none.
pub open spec fn spec_remap(key_map: KeyMap, key: Key) -> Key {
    if key_map.as_map().contains_key(key) {
        key_map.as_map()[key]
    } else {
        key
    }
}

/// An exposure of `parent`: an existing record is left alone; otherwise
/// the oldest queued child is claimed and recorded, and an empty queue
/// means the exposure was stale.
pub open spec fn spec_expose(m: StateModel, parent: WindowHandle) -> StateModel {
    if m.records.contains_key(parent) {
        m
    } else if m.queue.len() == 0 {
        m
    } else {
        StateModel {
            records: m.records.insert(parent, WindowState::Valid(m.queue[0])),
            queue: m.queue.skip(1),
        }
    }
}

/// An accepted reparent notification for `window`: a no-op when the window
/// is already queued or adopted, otherwise it joins the queue tail.
pub open spec fn spec_reparent(m: StateModel, window: WindowHandle) -> StateModel {
    if spec_child_known(m, window) {
        m
    } else {
        StateModel { records: m.records, queue: m.queue.push(window) }
    }
}

/// A close request for frame `window`: a `Valid` record turns `Exiting`,
/// anything else is left alone.
pub open spec fn spec_destroy_request(m: StateModel, window: WindowHandle) -> StateModel {
    if m.records.contains_key(window) && m.records[window] is Valid {
        StateModel {
            records: m.records.insert(
                window,
                WindowState::Exiting(child_of(m.records[window])),
            ),
            queue: m.queue,
        }
    } else {
        m
    }
}

/// The frames whose record is `Exiting(window)`.
pub open spec fn exiting_parents(
    records: Map<WindowHandle, WindowState>,
    window: WindowHandle,
) -> Set<WindowHandle> {
    records.dom().filter(|p: WindowHandle| records[p] == WindowState::Exiting(window))
}

/// A destroy notification for `window`: every record exiting on `window`
/// is removed; `Valid` records and records exiting on other windows stay.
pub open spec fn spec_destroy_notify(m: StateModel, window: WindowHandle) -> StateModel {
    StateModel { records: m.records.remove_keys(exiting_parents(m.records, window)), queue: m.queue }
}

/// What an exposure of `parent` makes the bridge do: resize an adopted
/// child to its frame; or, when the frame is fresh and a child is
/// pending, reparent the oldest pending child under the frame, grab the
/// remap table's chords on the frame, and focus the child.
pub open spec fn expose_commands(
    m: StateModel,
    parent: WindowHandle,
    key_map: KeyMap,
    cmds: Seq<Command>,
) -> bool {
    if m.records.contains_key(parent) {
        if m.records[parent] is Valid {
            cmds == seq![Command::ResizeToParent { child: child_of(m.records[parent]), parent }]
        } else {
            cmds == Seq::<Command>::empty()
        }
    } else if m.queue.len() == 0 {
        cmds == Seq::<Command>::empty()
    } else {
        &&& cmds.len() == 3
        &&& cmds[0] == Command::ReparentWindow { child: m.queue[0], parent }
        &&& (cmds[1] matches Command::GrabKeys { window, key_map: km } && window == parent && km@
            == key_map@)
        &&& cmds[2] == Command::FocusWindow { window: m.queue[0] }
    }
}

/// What a geometry change of `parent` makes the bridge do: resize a
/// `Valid` record's child to the new geometry, nothing otherwise.
pub open spec fn update_commands(
    m: StateModel,
    parent: WindowHandle,
    width: u32,
    height: u32,
    cmds: Seq<Command>,
) -> bool {
    cmds == (if m.records.contains_key(parent) && m.records[parent] is Valid {
        seq![Command::ResizeTo { window: child_of(m.records[parent]), width, height }]
    } else {
        Seq::<Command>::empty()
    })
}

/// What a key press on `parent` makes the bridge do: exactly one
/// synthetic key event carrying the remapped chord, delivered to a
/// `Valid` record's child; the key is dropped otherwise.
pub open spec fn keypress_commands(
    m: StateModel,
    parent: WindowHandle,
    pressed_key: Key,
    key_map: KeyMap,
    cmds: Seq<Command>,
) -> bool {
    cmds == (if m.records.contains_key(parent) && m.records[parent] is Valid {
        seq![
            Command::SendKeyEvent {
                window: child_of(m.records[parent]),
                key: spec_remap(key_map, pressed_key),
            },
        ]
    } else {
        Seq::<Command>::empty()
    })
}

/// What a focus notification on `parent` makes the bridge do: refocus a
/// `Valid` record's child, nothing otherwise.
pub open spec fn focus_commands(m: StateModel, parent: WindowHandle, cmds: Seq<Command>) -> bool {
    cmds == (if m.records.contains_key(parent) && m.records[parent] is Valid {
        seq![Command::FocusWindow { window: child_of(m.records[parent]) }]
    } else {
        Seq::<Command>::empty()
    })
}

/// What an accepted reparent notification makes the bridge do: create one
/// fresh frame for a new window, nothing for one already accounted for.
pub open spec fn reparent_commands(
    m: StateModel,
    window: WindowHandle,
    screen: ScreenId,
    cmds: Seq<Command>,
) -> bool {
    cmds == (if spec_child_known(m, window) {
        Seq::<Command>::empty()
    } else {
        seq![Command::CreateWindow { screen }]
    })
}

/// What a close request for frame `window` makes the bridge do: begin the
/// two-phase close for a `Valid` record's child, nothing otherwise.
pub open spec fn destroy_request_commands(
    m: StateModel,
    window: WindowHandle,
    cmds: Seq<Command>,
) -> bool {
    cmds == (if m.records.contains_key(window) && m.records[window] is Valid {
        seq![
            Command::NotifyChildShouldClose { child: child_of(m.records[window]), parent: window },
        ]
    } else {
        Seq::<Command>::empty()
    })
}

/// The record table and pending queue, owned exclusively by the dispatch
/// loop.
pub struct DesktopState {
    parent_child_map: Vec<(WindowHandle, WindowState)>,
    parent_needed_queue: Vec<WindowHandle>,
}

impl View for DesktopState {
    type V = StateModel;

    closed spec fn view(&self) -> StateModel {
        StateModel {
            records: assoc_map(self.parent_child_map@),
            queue: self.parent_needed_queue@,
        }
    }
}

impl DesktopState {
    /// The record table as the list it is stored in, one pair per frame.
    pub closed spec fn entries(&self) -> Seq<(WindowHandle, WindowState)> {
        self.parent_child_map@
    }

    /// The list carries each frame once, and the machine's state obeys the
    /// one-place-per-child invariant.
    pub open spec fn wf(&self) -> bool {
        &&& assoc_unique(self.entries())
        &&& model_wf(self@)
    }

    /// A machine with no records and no pending children.
    pub fn new() -> (r: DesktopState)
        ensures
            r.wf(),
            r@.records =~= Map::<WindowHandle, WindowState>::empty(),
            r@.queue =~= Seq::<WindowHandle>::empty(),
    {
        DesktopState { parent_child_map: Vec::new(), parent_needed_queue: Vec::new() }
    }

    /// Looks `parent` up in the record table.
    #[verifier::loop_isolation(false)]
    fn find_record(&self, parent: WindowHandle) -> (r: Option<WindowState>)
        requires
            assoc_unique(self.entries()),
        ensures
            r == (if self@.records.contains_key(parent) {
                Some(self@.records[parent])
            } else {
                None::<WindowState>
            }),
    {
        let n = self.parent_child_map.len();
        for i in 0..n
            invariant
                n == self.entries().len(),
                forall|j: int| 0 <= j < i ==> (#[trigger] self.entries()[j]).0 != parent,
        {
            if self.parent_child_map[i].0 == parent {
                proof {
                    lemma_assoc_map_entry(self.entries(), i as int);
                }
                return Some(self.parent_child_map[i].1);
            }
        }
        proof {
            lemma_assoc_map_domain(self.entries());
        }
        None
    }

    /// A geometry change of `parent`: a `Valid` record forwards the new
    /// size to its child, anything else is a no-op.
    pub fn handle_parent_update(&mut self, parent: WindowHandle, width: u32, height: u32) -> (cmds:
        Vec<Command>)
        requires
            old(self).wf(),
        ensures
            *final(self) == *old(self),
            update_commands(old(self)@, parent, width, height, cmds@),
    {
        match self.find_record(parent) {
            Some(WindowState::Valid(child)) => {
                let mut cmds: Vec<Command> = Vec::new();
                cmds.push(Command::ResizeTo { window: child, width, height });
                proof {
                    assert(cmds@ =~= seq![
                        Command::ResizeTo {
                            window: child_of(old(self)@.records[parent]),
                            width,
                            height,
                        },
                    ]);
                }
                cmds
            },
            _ => {
                let cmds: Vec<Command> = Vec::new();
                proof {
                    assert(cmds@ =~= Seq::<Command>::empty());
                }
                cmds
            },
        }
    }

    /// A key press delivered to frame `parent`: the chord is rewritten
    /// through the remap table (unchanged when unmapped) and forwarded to
    /// the child of a `Valid` record as exactly one synthetic key event; a
    /// missing or exiting record drops the key.
    pub fn handle_key_press(&mut self, parent: WindowHandle, pressed_key: Key, key_map: &KeyMap) -> (
        cmds: Vec<Command>)
        requires
            old(self).wf(),
            key_map.wf(),
        ensures
            *final(self) == *old(self),
            keypress_commands(old(self)@, parent, pressed_key, *key_map, cmds@),
    {
        let new_key = match key_map.mapped_key(pressed_key) {
            Some(new_key) => new_key,
            None => pressed_key,
        };
        match self.find_record(parent) {
            Some(WindowState::Valid(child)) => {
                let mut cmds: Vec<Command> = Vec::new();
                cmds.push(Command::SendKeyEvent { window: child, key: new_key });
                proof {
                    assert(cmds@ =~= seq![
                        Command::SendKeyEvent {
                            window: child_of(old(self)@.records[parent]),
                            key: spec_remap(*key_map, pressed_key),
                        },
                    ]);
                }
                cmds
            },
            _ => {
                let cmds: Vec<Command> = Vec::new();
                proof {
                    assert(cmds@ =~= Seq::<Command>::empty());
                }
                cmds
            },
        }
    }

    /// An exposure of frame `parent`. With an existing record a `Valid`
    /// child is resized to the frame and an `Exiting` one is left alone.
    /// With no record the oldest pending child is claimed: it is recorded
    /// as `Valid`, reparented under the frame, the remap table's chords
    /// are grabbed on the frame, and the child is focused. An empty queue
    /// means the exposure came from a deleted frame, and nothing happens.
    pub fn handle_parent_expose(&mut self, parent: WindowHandle, key_map: &KeyMap) -> (cmds: Vec<
        Command,
    >)
        requires
            old(self).wf(),
        ensures
            final(self).wf(),
            final(self)@ == spec_expose(old(self)@, parent),
            expose_commands(old(self)@, parent, *key_map, cmds@),
    {
        let ghost oldm = self@;
        match self.find_record(parent) {
            Some(WindowState::Valid(child)) => {
                let mut cmds: Vec<Command> = Vec::new();
                cmds.push(Command::ResizeToParent { child, parent });
                proof {
                    assert(cmds@ =~= seq![
                        Command::ResizeToParent { child: child_of(oldm.records[parent]), parent },
                    ]);
                }
                cmds
            },
            Some(WindowState::Exiting(_)) => {
                let cmds: Vec<Command> = Vec::new();
                proof {
                    assert(cmds@ =~= Seq::<Command>::empty());
                }
                cmds
            },
            None => {
                if self.parent_needed_queue.len() == 0 {
                    let cmds: Vec<Command> = Vec::new();
                    proof {
                        assert(cmds@ =~= Seq::<Command>::empty());
                    }
                    cmds
                } else {
                    let ghost orig = self.entries();
                    let child = self.parent_needed_queue.remove(0);
                    self.parent_child_map.push((parent, WindowState::Valid(child)));
                    proof {
                        let newm = self@;
                        lemma_assoc_map_domain(orig);
                        lemma_assoc_map_push(orig, parent, WindowState::Valid(child));
                        assert(self.entries().drop_last() =~= orig);
                        assert forall|j: int, l: int| 0 <= j < l < self.entries().len() implies (
                        #[trigger] self.entries()[j]).0 != (#[trigger] self.entries()[l]).0 by {
                            if l == self.entries().len() - 1 {
                                assert(!oldm.records.contains_key(parent));
                                assert(self.entries()[j] == orig[j]);
                            } else {
                                assert(self.entries()[j] == orig[j]);
                                assert(self.entries()[l] == orig[l]);
                            }
                        }
                        assert(newm.records =~= oldm.records.insert(
                            parent,
                            WindowState::Valid(child),
                        ));
                        assert(newm.queue =~= oldm.queue.skip(1));
                        assert(child == oldm.queue[0]);
                        assert forall|i: int, j: int|
                            0 <= i < j < newm.queue.len() implies newm.queue[i]
                            != newm.queue[j] by {
                            assert(newm.queue[i] == oldm.queue[i + 1]);
                            assert(newm.queue[j] == oldm.queue[j + 1]);
                        }
                        assert forall|i: int, p: WindowHandle|
                            #![trigger newm.queue[i], newm.records[p]]
                            0 <= i < newm.queue.len() && newm.records.contains_key(
                                p,
                            ) implies newm.queue[i] != child_of(newm.records[p]) by {
                            assert(newm.queue[i] == oldm.queue[i + 1]);
                            if p == parent {
                                assert(child_of(newm.records[p]) == oldm.queue[0]);
                            } else {
                                assert(oldm.records.contains_key(p));
                                assert(newm.records[p] == oldm.records[p]);
                            }
                        }
                        assert forall|p1: WindowHandle, p2: WindowHandle|
                            #![trigger newm.records[p1], newm.records[p2]]
                            newm.records.contains_key(p1) && newm.records.contains_key(p2) && p1
                                != p2 implies child_of(newm.records[p1]) != child_of(
                            newm.records[p2]) by {
                            if p1 == parent {
                                assert(oldm.records.contains_key(p2));
                                assert(oldm.queue[0] != child_of(oldm.records[p2]));
                            } else if p2 == parent {
                                assert(oldm.records.contains_key(p1));
                                assert(oldm.queue[0] != child_of(oldm.records[p1]));
                            } else {
                                assert(oldm.records.contains_key(p1));
                                assert(oldm.records.contains_key(p2));
                            }
                        }
                    }
                    let mut cmds: Vec<Command> = Vec::new();
                    cmds.push(Command::ReparentWindow { child, parent });
                    cmds.push(Command::GrabKeys { window: parent, key_map: key_map.clone() });
                    cmds.push(Command::FocusWindow { window: child });
                    cmds
                }
            },
        }
    }

    /// An accepted reparent notification for candidate `window`: a window
    /// already queued or already some record's child is ignored entirely —
    /// the queue and the record table are unchanged and no frame is
    /// created — so duplicate notifications cannot double-enqueue.
    /// Otherwise the window joins the queue tail and a fresh frame is
    /// requested; its later exposure completes the adoption.
    #[verifier::loop_isolation(false)]
    pub fn handle_window_reparent(&mut self, window: WindowHandle, screen: ScreenId) -> (cmds: Vec<
        Command,
    >)
        requires
            old(self).wf(),
        ensures
            final(self).wf(),
            final(self)@ == spec_reparent(old(self)@, window),
            spec_child_known(old(self)@, window) ==> *final(self) == *old(self),
            reparent_commands(old(self)@, window, screen, cmds@),
    {
        let ghost oldm = self@;
        let child_window = window;
        let nq = self.parent_needed_queue.len();
        let mut in_queue = false;
        for i in 0..nq
            invariant
                nq == oldm.queue.len(),
                self.parent_needed_queue@ == oldm.queue,
                self.parent_child_map@ == old(self).entries(),
                in_queue == exists|j: int| 0 <= j < i && oldm.queue[j] == child_window,
        {
            if self.parent_needed_queue[i] == child_window {
                in_queue = true;
            }
        }
        let nr = self.parent_child_map.len();
        let mut already_parented = false;
        for i in 0..nr
            invariant
                nr == old(self).entries().len(),
                self.parent_needed_queue@ == oldm.queue,
                self.parent_child_map@ == old(self).entries(),
                already_parented == exists|j: int|
                    0 <= j < i && child_of((#[trigger] old(self).entries()[j]).1) == child_window,
        {
            let referenced = match self.parent_child_map[i].1 {
                WindowState::Valid(c) => c,
                WindowState::Exiting(c) => c,
            };
            if referenced == child_window {
                already_parented = true;
                proof {
                    assert(child_of(old(self).entries()[i as int].1) == child_window);
                }
            }
        }
        if in_queue || already_parented {
            proof {
                if in_queue {
                    let j = choose|j: int| 0 <= j < nq && oldm.queue[j] == child_window;
                    assert(oldm.queue.contains(child_window));
                } else {
                    let j = choose|j: int|
                        0 <= j < nr && child_of((#[trigger] old(self).entries()[j]).1)
                            == child_window;
                    lemma_assoc_map_entry(old(self).entries(), j);
                    let p = old(self).entries()[j].0;
                    assert(oldm.records.contains_key(p) && child_of(oldm.records[p])
                        == child_window);
                }
                assert(spec_child_known(oldm, window));
            }
            let cmds: Vec<Command> = Vec::new();
            proof {
                assert(cmds@ =~= Seq::<Command>::empty());
            }
            cmds
        } else {
            proof {
                assert(!oldm.queue.contains(child_window)) by {
                    if oldm.queue.contains(child_window) {
                        let j = choose|j: int|
                            0 <= j < oldm.queue.len() && oldm.queue[j] == child_window;
                    }
                }
                assert(!(exists|p: WindowHandle|
                    #[trigger] oldm.records.contains_key(p) && child_of(oldm.records[p])
                        == child_window)) by {
                    if exists|p: WindowHandle|
                        #[trigger] oldm.records.contains_key(p) && child_of(oldm.records[p])
                            == child_window {
                        let p = choose|p: WindowHandle|
                            #[trigger] oldm.records.contains_key(p) && child_of(oldm.records[p])
                                == child_window;
                        lemma_assoc_map_domain(old(self).entries());
                        let j = choose|j: int|
                            0 <= j < old(self).entries().len() && (#[trigger] old(
                                self,
                            ).entries()[j]).0 == p;
                        lemma_assoc_map_entry(old(self).entries(), j);
                        assert(child_of(old(self).entries()[j].1) == child_window);
                    }
                }
                assert(!spec_child_known(oldm, window));
            }
            self.parent_needed_queue.push(child_window);
            proof {
                let newm = self@;
                assert(newm.records == oldm.records);
                assert(newm.queue =~= oldm.queue.push(child_window));
                assert forall|i: int, j: int|
                    0 <= i < j < newm.queue.len() implies newm.queue[i] != newm.queue[j] by {
                    if j == newm.queue.len() - 1 {
                        assert(oldm.queue[i] == newm.queue[i]);
                        assert(oldm.queue.contains(oldm.queue[i]) == true);
                    }
                }
                assert forall|i: int, p: WindowHandle|
                    #![trigger newm.queue[i], newm.records[p]]
                    0 <= i < newm.queue.len() && newm.records.contains_key(p) implies newm.queue[i]
                    != child_of(newm.records[p]) by {
                    if i == newm.queue.len() - 1 {
                        assert(newm.queue[i] == child_window);
                    } else {
                        assert(newm.queue[i] == oldm.queue[i]);
                    }
                }
            }
            let mut cmds: Vec<Command> = Vec::new();
            cmds.push(Command::CreateWindow { screen });
            proof {
                assert(cmds@ =~= seq![Command::CreateWindow { screen }]);
            }
            cmds
        }
    }

    /// A close request for frame `window`: a `Valid` record turns
    /// `Exiting` and the two-phase close is begun — the child is detached,
    /// the frame destroyed, and the close-protocol message sent. A record
    /// already exiting, or no record, is left alone.
    #[verifier::loop_isolation(false)]
    pub fn handle_destroy_request(&mut self, window: WindowHandle) -> (cmds: Vec<Command>)
        requires
            old(self).wf(),
        ensures
            final(self).wf(),
            final(self)@ == spec_destroy_request(old(self)@, window),
            destroy_request_commands(old(self)@, window, cmds@),
    {
        let ghost oldm = self@;
        let ghost orig = self.entries();
        let n = self.parent_child_map.len();
        for i in 0..n
            invariant
                n == orig.len(),
                self.parent_child_map@ == orig,
                self.parent_needed_queue@ == oldm.queue,
                forall|j: int| 0 <= j < i ==> (#[trigger] orig[j]).0 != window,
        {
            if self.parent_child_map[i].0 == window {
                proof {
                    lemma_assoc_map_entry(orig, i as int);
                }
                match self.parent_child_map[i].1 {
                    WindowState::Valid(child) => {
                        self.parent_child_map.set(i, (window, WindowState::Exiting(child)));
                        proof {
                            let newm = self@;
                            lemma_assoc_map_update(orig, i as int, window, WindowState::Exiting(child));
                            assert forall|j: int| 0 <= j < self.entries().len() implies (
                            #[trigger] self.entries()[j]).0 == orig[j].0 by {
                                assert(orig[i as int].0 == window);
                            }
                            assert(newm.records =~= oldm.records.insert(
                                window,
                                WindowState::Exiting(child),
                            ));
                            assert(child_of(oldm.records[window]) == child);
                            assert forall|i2: int, p: WindowHandle|
                                #![trigger newm.queue[i2], newm.records[p]]
                                0 <= i2 < newm.queue.len() && newm.records.contains_key(
                                    p,
                                ) implies newm.queue[i2] != child_of(newm.records[p]) by {
                                assert(oldm.records.contains_key(p));
                                assert(child_of(newm.records[p]) == child_of(oldm.records[p]));
                            }
                            assert forall|p1: WindowHandle, p2: WindowHandle|
                                #![trigger newm.records[p1], newm.records[p2]]
                                newm.records.contains_key(p1) && newm.records.contains_key(p2)
                                    && p1 != p2 implies child_of(newm.records[p1]) != child_of(
                                newm.records[p2]) by {
                                assert(oldm.records.contains_key(p1));
                                assert(oldm.records.contains_key(p2));
                                assert(child_of(newm.records[p1]) == child_of(oldm.records[p1]));
                                assert(child_of(newm.records[p2]) == child_of(oldm.records[p2]));
                            }
                        }
                        let mut cmds: Vec<Command> = Vec::new();
                        cmds.push(Command::NotifyChildShouldClose { child, parent: window });
                        proof {
                            assert(cmds@ =~= seq![
                                Command::NotifyChildShouldClose {
                                    child: child_of(oldm.records[window]),
                                    parent: window,
                                },
                            ]);
                        }
                        return cmds;
                    },
                    WindowState::Exiting(_) => {
                        let cmds: Vec<Command> = Vec::new();
                        proof {
                            assert(cmds@ =~= Seq::<Command>::empty());
                        }
                        return cmds;
                    },
                }
            }
        }
        proof {
            lemma_assoc_map_domain(orig);
            assert(!oldm.records.contains_key(window));
        }
        let cmds: Vec<Command> = Vec::new();
        proof {
            assert(cmds@ =~= Seq::<Command>::empty());
        }
        cmds
    }

    /// A destroy notification for `window`: every record that was exiting
    /// on `window` is removed — removal is by the recorded child, not by
    /// frame — while `Valid` records and records exiting on other windows
    /// are untouched. No bridge operation is issued.
    #[verifier::loop_isolation(false)]
    pub fn handle_destroy_notify(&mut self, window: WindowHandle)
        requires
            old(self).wf(),
        ensures
            final(self).wf(),
            final(self)@ == spec_destroy_notify(old(self)@, window),
    {
        let ghost oldm = self@;
        let ghost orig = self.entries();
        let ghost doomed = exiting_parents(oldm.records, window);
        let mut kept: Vec<(WindowHandle, WindowState)> = Vec::new();
        let n = self.parent_child_map.len();
        for i in 0..n
            invariant
                n == orig.len(),
                self.parent_child_map@ == orig,
                self.parent_needed_queue@ == oldm.queue,
                assoc_unique(kept@),
                forall|l: int|
                    0 <= l < kept@.len() ==> exists|j: int|
                        0 <= j < i && #[trigger] kept@[l] == orig[j],
                assoc_map(kept@) =~= assoc_map(orig.take(i as int)).remove_keys(doomed),
        {
            let entry = self.parent_child_map[i];
            let ghost prefix = orig.take(i as int);
            proof {
                assert(prefix.push(orig[i as int]) =~= orig.take(i as int + 1));
                lemma_assoc_map_push(prefix, orig[i as int].0, orig[i as int].1);
                assert(assoc_map(orig.take(i as int + 1)) =~= assoc_map(prefix).insert(
                    orig[i as int].0,
                    orig[i as int].1,
                ));
                lemma_assoc_map_entry(orig, i as int);
                lemma_assoc_map_domain(kept@);
            }
            let keep = match entry.1 {
                WindowState::Exiting(c) => c != window,
                WindowState::Valid(_) => true,
            };
            proof {
                assert(doomed.contains(entry.0) == !keep);
                assert forall|l: int| 0 <= l < kept@.len() implies (#[trigger] kept@[l]).0
                    != entry.0 by {
                    let j = choose|j: int| 0 <= j < i && #[trigger] kept@[l] == orig[j];
                    assert(orig[j].0 != orig[i as int].0);
                }
                assert(!assoc_map(kept@).contains_key(entry.0));
            }
            if keep {
                let ghost kept_before = kept@;
                kept.push(entry);
                proof {
                    lemma_assoc_map_push(kept_before, entry.0, entry.1);
                    assert(kept@ =~= kept_before.push((entry.0, entry.1)));
                    assert(assoc_map(kept@) =~= assoc_map(kept_before).insert(entry.0, entry.1));
                    assert(assoc_map(kept@) =~= assoc_map(orig.take(i as int + 1)).remove_keys(
                        doomed,
                    ));
                }
            } else {
                proof {
                    assert(assoc_map(kept@) =~= assoc_map(orig.take(i as int + 1)).remove_keys(
                        doomed,
                    ));
                }
            }
        }
        proof {
            assert(orig.take(n as int) =~= orig);
        }
        self.parent_child_map = kept;
        proof {
            let newm = self@;
            assert(newm.records =~= oldm.records.remove_keys(doomed));
            assert forall|i2: int, p: WindowHandle|
                #![trigger newm.queue[i2], newm.records[p]]
                0 <= i2 < newm.queue.len() && newm.records.contains_key(p) implies newm.queue[i2]
                != child_of(newm.records[p]) by {
                assert(oldm.records.contains_key(p));
                assert(newm.records[p] == oldm.records[p]);
            }
            assert forall|p1: WindowHandle, p2: WindowHandle|
                #![trigger newm.records[p1], newm.records[p2]]
                newm.records.contains_key(p1) && newm.records.contains_key(p2) && p1
                    != p2 implies child_of(newm.records[p1]) != child_of(newm.records[p2]) by {
                assert(oldm.records.contains_key(p1));
                assert(oldm.records.contains_key(p2));
                assert(newm.records[p1] == oldm.records[p1]);
                assert(newm.records[p2] == oldm.records[p2]);
            }
        }
    }

    /// The frame `parent` received input focus: a `Valid` record forwards
    /// the focus to its child, keeping real input on the content window.
    pub fn handle_parent_focus(&mut self, parent: WindowHandle) -> (cmds: Vec<Command>)
        requires
            old(self).wf(),
        ensures
            *final(self) == *old(self),
            focus_commands(old(self)@, parent, cmds@),
    {
        match self.find_record(parent) {
            Some(WindowState::Valid(child)) => {
                let mut cmds: Vec<Command> = Vec::new();
                cmds.push(Command::FocusWindow { window: child });
                proof {
                    assert(cmds@ =~= seq![
                        Command::FocusWindow { window: child_of(old(self)@.records[parent]) },
                    ]);
                }
                cmds
            },
            _ => {
                let cmds: Vec<Command> = Vec::new();
                proof {
                    assert(cmds@ =~= Seq::<Command>::empty());
                }
                cmds
            },
        }
    }

    /// Routes one domain event to its handler. `info` is the metadata the
    /// bridge queried for the window of a reparent notification — it is
    /// evaluated against the acceptance filter before the window becomes
    /// an adoption candidate — and is ignored for every other event.
    pub fn handle_event(
        &mut self,
        event: XBridgeEvent,
        info: &WindowInfo,
        window_filter: &WindowFilter,
        key_map: &KeyMap,
        screen: ScreenId,
    ) -> (cmds: Vec<Command>)
        requires
            old(self).wf(),
            key_map.wf(),
        ensures
            final(self).wf(),
            match event {
                XBridgeEvent::Expose { parent } => final(self)@ == spec_expose(old(self)@, parent)
                    && expose_commands(old(self)@, parent, *key_map, cmds@),
                XBridgeEvent::ConfigureNotify { width, height, parent } => *final(self) == *old(
                    self,
                ) && update_commands(old(self)@, parent, width, height, cmds@),
                XBridgeEvent::ReparentNotify { window } => if window_filter.spec_accepts(info) {
                    final(self)@ == spec_reparent(old(self)@, window) && reparent_commands(
                        old(self)@,
                        window,
                        screen,
                        cmds@,
                    )
                } else {
                    *final(self) == *old(self) && cmds@ == Seq::<Command>::empty()
                },
                XBridgeEvent::KeyPress { key, parent } => *final(self) == *old(self)
                    && keypress_commands(old(self)@, parent, key, *key_map, cmds@),
                XBridgeEvent::DestroyRequest { window } => final(self)@ == spec_destroy_request(
                    old(self)@,
                    window,
                ) && destroy_request_commands(old(self)@, window, cmds@),
                XBridgeEvent::DestroyNotify { window } => final(self)@ == spec_destroy_notify(
                    old(self)@,
                    window,
                ) && cmds@ == Seq::<Command>::empty(),
                XBridgeEvent::ParentFocus { parent } => *final(self) == *old(self)
                    && focus_commands(old(self)@, parent, cmds@),
            },
    {
        match event {
            XBridgeEvent::Expose { parent } => self.handle_parent_expose(parent, key_map),
            XBridgeEvent::ConfigureNotify { width, height, parent } => self.handle_parent_update(
                parent,
                width,
                height,
            ),
            XBridgeEvent::ReparentNotify { window } => {
                if window_filter.accepts(info) {
                    self.handle_window_reparent(window, screen)
                } else {
                    let cmds: Vec<Command> = Vec::new();
                    proof {
                        assert(cmds@ =~= Seq::<Command>::empty());
                    }
                    cmds
                }
            },
            XBridgeEvent::KeyPress { key, parent } => self.handle_key_press(parent, key, key_map),
            XBridgeEvent::DestroyRequest { window } => self.handle_destroy_request(window),
            XBridgeEvent::DestroyNotify { window } => {
                self.handle_destroy_notify(window);
                let cmds: Vec<Command> = Vec::new();
                proof {
                    assert(cmds@ =~= Seq::<Command>::empty());
                }
                cmds
            },
            XBridgeEvent::ParentFocus { parent } => self.handle_parent_focus(parent),
        }
    }
}

/// The machine after a run of reparent notifications, in notification
/// order.
pub open spec fn spec_enqueue_all(m: StateModel, windows: Seq<WindowHandle>) -> StateModel
    decreases windows.len(),
{
    if windows.len() == 0 {
        m
    } else {
        spec_enqueue_all(spec_reparent(m, windows[0]), windows.skip(1))
    }
}

/// The machine after a run of exposures, in exposure order.
pub open spec fn spec_expose_all(m: StateModel, parents: Seq<WindowHandle>) -> StateModel
    decreases parents.len(),
{
    if parents.len() == 0 {
        m
    } else {
        spec_expose_all(spec_expose(m, parents[0]), parents.skip(1))
    }
}

/// Reparent notifications for distinct, unknown windows enqueue them all,
/// in notification order, and touch no record.
pub proof fn lemma_enqueue_all(m: StateModel, windows: Seq<WindowHandle>)
    requires
        forall|i: int, j: int| 0 <= i < j < windows.len() ==> windows[i] != windows[j],
        forall|i: int| 0 <= i < windows.len() ==> !spec_child_known(m, #[trigger] windows[i]),
    ensures
        spec_enqueue_all(m, windows).records == m.records,
        spec_enqueue_all(m, windows).queue == m.queue + windows,
    decreases windows.len(),
{
    if windows.len() == 0 {
        assert(m.queue + windows =~= m.queue);
    } else {
        let w0 = windows[0];
        assert(!spec_child_known(m, w0));
        let m1 = spec_reparent(m, w0);
        assert(m1.records == m.records);
        assert(m1.queue == m.queue.push(w0));
        assert forall|i: int| 0 <= i < windows.skip(1).len() implies !spec_child_known(
            m1,
            #[trigger] windows.skip(1)[i],
        ) by {
            let w = windows.skip(1)[i];
            assert(w == windows[i + 1]);
            assert(!spec_child_known(m, w));
            if m1.queue.contains(w) {
                let j = choose|j: int| 0 <= j < m1.queue.len() && m1.queue[j] == w;
                if j < m.queue.len() {
                    assert(m.queue.contains(w));
                } else {
                    assert(w == w0);
                }
                assert(false);
            }
        }
        assert forall|i: int, j: int| 0 <= i < j < windows.skip(1).len() implies windows.skip(1)[i]
            != windows.skip(1)[j] by {
            assert(windows.skip(1)[i] == windows[i + 1]);
            assert(windows.skip(1)[j] == windows[j + 1]);
        }
        lemma_enqueue_all(m1, windows.skip(1));
        assert(m.queue.push(w0) + windows.skip(1) =~= m.queue + windows);
    }
}

/// Exposures of distinct fresh frames claim the queued children in FIFO
/// order: the `i`-th frame to become exposed adopts the `i`-th queued
/// child, whatever the exposure order of the frames; records of other
/// frames are untouched.
pub proof fn lemma_expose_all(m: StateModel, parents: Seq<WindowHandle>)
    requires
        forall|i: int, j: int| 0 <= i < j < parents.len() ==> parents[i] != parents[j],
        forall|i: int|
            0 <= i < parents.len() ==> !m.records.contains_key(#[trigger] parents[i]),
        parents.len() <= m.queue.len(),
    ensures
        spec_expose_all(m, parents).queue == m.queue.skip(parents.len() as int),
        forall|i: int|
            0 <= i < parents.len() ==> spec_expose_all(m, parents).records.contains_key(
                #[trigger] parents[i],
            ) && spec_expose_all(m, parents).records[parents[i]] == WindowState::Valid(m.queue[i]),
        forall|p: WindowHandle|
            !parents.contains(p) ==> (spec_expose_all(m, parents).records.contains_key(p)
                == m.records.contains_key(p)) && (m.records.contains_key(p)
                ==> spec_expose_all(m, parents).records[p] == m.records[p]),
    decreases parents.len(),
{
    if parents.len() == 0 {
        assert(m.queue.skip(0) =~= m.queue);
    } else {
        let p0 = parents[0];
        assert(!m.records.contains_key(p0));
        let m1 = spec_expose(m, p0);
        assert(m1.records == m.records.insert(p0, WindowState::Valid(m.queue[0])));
        assert(m1.queue == m.queue.skip(1));
        let rest = parents.skip(1);
        assert forall|i: int, j: int| 0 <= i < j < rest.len() implies rest[i] != rest[j] by {
            assert(rest[i] == parents[i + 1]);
            assert(rest[j] == parents[j + 1]);
        }
        assert forall|i: int| 0 <= i < rest.len() implies !m1.records.contains_key(
            #[trigger] rest[i],
        ) by {
            assert(rest[i] == parents[i + 1]);
        }
        lemma_expose_all(m1, rest);
        let r = spec_expose_all(m1, rest);
        assert(spec_expose_all(m, parents) == r);
        assert(m1.queue.skip(rest.len() as int) =~= m.queue.skip(parents.len() as int));
        assert(!rest.contains(p0)) by {
            if rest.contains(p0) {
                let j = choose|j: int| 0 <= j < rest.len() && rest[j] == p0;
                assert(parents[j + 1] == parents[0]);
            }
        }
        assert forall|i: int| 0 <= i < parents.len() implies r.records.contains_key(
            #[trigger] parents[i],
        ) && r.records[parents[i]] == WindowState::Valid(m.queue[i]) by {
            if i == 0 {
                assert(m1.records.contains_key(p0));
                assert(r.records.contains_key(p0) && r.records[p0] == m1.records[p0]);
            } else {
                assert(rest[i - 1] == parents[i]);
                assert(r.records[rest[i - 1]] == WindowState::Valid(m1.queue[i - 1]));
                assert(m1.queue[i - 1] == m.queue[i]);
            }
        }
        assert forall|p: WindowHandle| !parents.contains(p) implies (r.records.contains_key(p)
            == m.records.contains_key(p)) && (m.records.contains_key(p) ==> r.records[p]
            == m.records[p]) by {
            assert(parents[0] == p0);
            assert(p != p0) by {
                assert(parents.contains(p) == (exists|j: int|
                    0 <= j < parents.len() && parents[j] == p));
            }
            assert(!rest.contains(p)) by {
                if rest.contains(p) {
                    let j = choose|j: int| 0 <= j < rest.len() && rest[j] == p;
                    assert(parents[j + 1] == p);
                }
            }
            assert(m1.records.contains_key(p) == m.records.contains_key(p));
        }
    }
}

/// Adoption pairing follows the FIFO order of acceptance: starting with
/// an empty queue, after accepted reparent notifications for the distinct
/// fresh windows `windows` and then exposures of the distinct fresh
/// frames `parents` — in whatever order the frames become exposed — the
/// `i`-th exposed frame adopts exactly the `i`-th accepted window.
pub proof fn lemma_adoption_pairing_order(
    m: StateModel,
    windows: Seq<WindowHandle>,
    parents: Seq<WindowHandle>,
)
    requires
        m.queue.len() == 0,
        parents.len() == windows.len(),
        forall|i: int, j: int| 0 <= i < j < windows.len() ==> windows[i] != windows[j],
        forall|i: int| 0 <= i < windows.len() ==> !spec_child_known(m, #[trigger] windows[i]),
        forall|i: int, j: int| 0 <= i < j < parents.len() ==> parents[i] != parents[j],
        forall|i: int|
            0 <= i < parents.len() ==> !m.records.contains_key(#[trigger] parents[i]),
    ensures
        forall|i: int|
            0 <= i < parents.len() ==> spec_expose_all(
                spec_enqueue_all(m, windows),
                parents,
            ).records.contains_key(#[trigger] parents[i]) && spec_expose_all(
                spec_enqueue_all(m, windows),
                parents,
            ).records[parents[i]] == WindowState::Valid(windows[i]),
{
    lemma_enqueue_all(m, windows);
    let m1 = spec_enqueue_all(m, windows);
    assert(m1.queue =~= windows);
    lemma_expose_all(m1, parents);
}

/// Teardown is two-phase. A close request for frame `parent` with child
/// `child` turns its record `Exiting(child)` and keeps it; only the later
/// destroy notification for `child` — not one for the frame itself, nor
/// one for any unrelated window — removes the record.
pub proof fn lemma_two_phase_teardown(
    m: StateModel,
    parent: WindowHandle,
    child: WindowHandle,
    other: WindowHandle,
)
    requires
        model_wf(m),
        m.records.contains_key(parent),
        m.records[parent] == WindowState::Valid(child),
        other != child,
    ensures
        spec_destroy_request(m, parent).records.contains_key(parent),
        spec_destroy_request(m, parent).records[parent] == WindowState::Exiting(child),
        !spec_destroy_notify(spec_destroy_request(m, parent), child).records.contains_key(parent),
        spec_destroy_notify(spec_destroy_request(m, parent), other).records.contains_key(parent),
        spec_destroy_notify(spec_destroy_request(m, parent), other).records[parent]
            == WindowState::Exiting(child),
{
    let m1 = spec_destroy_request(m, parent);
    assert(m1.records[parent] == WindowState::Exiting(child));
    assert(exiting_parents(m1.records, child).contains(parent));
    assert(!exiting_parents(m1.records, other).contains(parent));
}

} // verus!
