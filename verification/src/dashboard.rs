//! The aggregator's view state: the latest snapshot of each machine, the
//! machine whose tab is shown, and whether the user asked to quit.

use vstd::prelude::*;
use crate::process::Processes;

verus! {

/// The kind of a terminal key event.
#[derive(Clone, Copy, Debug, PartialEq, Eq, Structural)]
pub enum KeyEventKind {
    Press,
    Repeat,
    Release,
}

/// The key of a terminal key event: a character key, the keys that switch
/// tabs, or any other key.
#[derive(Clone, Copy, Debug, PartialEq, Eq, Structural)]
pub enum KeyCode {
    Char(char),
    Tab,
    BackTab,
    Left,
    Right,
    Other,
}

#[derive(Clone, Copy, Debug, PartialEq, Eq, Structural)]
pub struct KeyEvent {
    pub code: KeyCode,
    pub kind: KeyEventKind,
}

/// A terminal input event: a key event, or any other (mouse, resize, focus,
/// paste).
#[derive(Clone, Copy, Debug, PartialEq, Eq, Structural)]
pub enum TerminalEvent {
    Key(KeyEvent),
    Other,
}

/// What the aggregator's view reacts to.
#[derive(Debug)]
pub enum SystemEvent {
    KeyEvent(TerminalEvent),
    ProcessEvent(Processes),
}

/// The aggregator's view state: one tab per machine, in the order in which
/// the machines were first heard from, each showing that machine's latest
/// snapshot.
pub struct App {
    machines: Vec<Processes>,
    /// The index of the tab shown.
    connection: usize,
    exit: bool,
}

/// No two snapshots are of the same machine.
pub open spec fn machine_ids_distinct(ms: Seq<Processes>) -> bool {
    forall|i: int, j: int|
        0 <= i < ms.len() && 0 <= j < ms.len() && i != j ==> #[trigger] ms[i].id@ != #[trigger] ms[j].id@
}

/// Whether some snapshot is of machine `id`.
pub open spec fn has_machine(ms: Seq<Processes>, id: Seq<char>) -> bool {
    exists|i: int| 0 <= i < ms.len() && #[trigger] ms[i].id@ == id
}

/// The index of the snapshot of machine `id`, where there is one.
pub open spec fn machine_position(ms: Seq<Processes>, id: Seq<char>) -> Option<int> {
    if has_machine(ms, id) {
        Some(choose|i: int| 0 <= i < ms.len() && #[trigger] ms[i].id@ == id)
    } else {
        None
    }
}

/// The snapshot held for machine `id`, where there is one.
pub open spec fn snapshot_for(ms: Seq<Processes>, id: Seq<char>) -> Option<Processes> {
    match machine_position(ms, id) {
        Some(i) => Some(ms[i]),
        None => None,
    }
}

/// The snapshots after `v` arrives: it replaces the one of its machine, or
/// opens a tab for a machine not seen before.
pub open spec fn store_snapshot(ms: Seq<Processes>, v: Processes) -> Seq<Processes> {
    match machine_position(ms, v.id@) {
        Some(i) => ms.update(i, v),
        None => ms.push(v),
    }
}

/// The tab after `selected` among `count`, wrapping to the first.
pub open spec fn next_tab(selected: int, count: int) -> int {
    if count == 0 || selected + 1 >= count {
        0
    } else {
        selected + 1
    }
}

/// The tab before `selected` among `count`, wrapping to the last.
pub open spec fn previous_tab(selected: int, count: int) -> int {
    if count == 0 {
        0
    } else if selected == 0 {
        count - 1
    } else {
        selected - 1
    }
}

/// The tab shown after key `code` is pressed: the next one on Tab or
/// Right, the previous one on BackTab or Left, the same one otherwise.
pub open spec fn tab_after_key(code: KeyCode, selected: int, count: int) -> int {
    match code {
        KeyCode::Tab | KeyCode::Right => next_tab(selected, count),
        KeyCode::BackTab | KeyCode::Left => previous_tab(selected, count),
        _ => selected,
    }
}

proof fn lemma_machine_position(ms: Seq<Processes>, id: Seq<char>, i: int)
    requires
        machine_ids_distinct(ms),
        0 <= i < ms.len(),
        ms[i].id@ == id,
    ensures
        machine_position(ms, id) == Some(i),
{
}

/// A snapshot of machine `m` replaces only `m`'s snapshot: afterwards `m`
/// shows it, every other machine shows what it showed before, and there is
/// still one snapshot per machine.
pub proof fn lemma_snapshot_replaces_only_its_machine(ms: Seq<Processes>, v: Processes, other: Seq<char>)
    requires
        machine_ids_distinct(ms),
    ensures
        machine_ids_distinct(store_snapshot(ms, v)),
        snapshot_for(store_snapshot(ms, v), v.id@) == Some(v),
        other != v.id@ ==> snapshot_for(store_snapshot(ms, v), other) == snapshot_for(ms, other),
        store_snapshot(ms, v).len() == ms.len() + (if has_machine(ms, v.id@) { 0int } else { 1int }),
{
    let ns = store_snapshot(ms, v);
    match machine_position(ms, v.id@) {
        Some(i) => {
            assert(ms[i].id@ == v.id@);
            assert forall|x: int, y: int|
                0 <= x < ns.len() && 0 <= y < ns.len() && x != y implies #[trigger] ns[x].id@
                != #[trigger] ns[y].id@ by {
                if x != i && y != i {
                    assert(ns[x] == ms[x] && ns[y] == ms[y]);
                } else if x == i {
                    assert(ns[y] == ms[y]);
                } else {
                    assert(ns[x] == ms[x]);
                }
            }
            lemma_machine_position(ns, v.id@, i);
            if other != v.id@ {
                match machine_position(ms, other) {
                    Some(j) => {
                        assert(ms[j].id@ == other);
                        assert(ns[j] == ms[j]);
                        lemma_machine_position(ns, other, j);
                    },
                    None => {
                        assert(!has_machine(ns, other)) by {
                            if has_machine(ns, other) {
                                let k = choose|k: int| 0 <= k < ns.len() && #[trigger] ns[k].id@ == other;
                                assert(k != i);
                                assert(ms[k] == ns[k]);
                            }
                        }
                    },
                }
            }
        },
        None => {
            assert forall|x: int, y: int|
                0 <= x < ns.len() && 0 <= y < ns.len() && x != y implies #[trigger] ns[x].id@
                != #[trigger] ns[y].id@ by {
                if x < ms.len() && y < ms.len() {
                    assert(ns[x] == ms[x] && ns[y] == ms[y]);
                } else if x < ms.len() {
                    assert(ns[x] == ms[x]);
                } else {
                    assert(ns[y] == ms[y]);
                }
            }
            lemma_machine_position(ns, v.id@, ms.len() as int);
            if other != v.id@ {
                match machine_position(ms, other) {
                    Some(j) => {
                        assert(ms[j].id@ == other);
                        assert(ns[j] == ms[j]);
                        lemma_machine_position(ns, other, j);
                    },
                    None => {
                        assert(!has_machine(ns, other)) by {
                            if has_machine(ns, other) {
                                let k = choose|k: int| 0 <= k < ns.len() && #[trigger] ns[k].id@ == other;
                                if k < ms.len() {
                                    assert(ms[k] == ns[k]);
                                }
                            }
                        }
                    },
                }
            }
        },
    }
}

/// Switching tabs stays among the tabs there are; stepping back undoes
/// stepping forward and the other way round; away from the ends a step
/// back shows the tab just before and a step forward the tab just after,
/// and at the ends the steps wrap around.
pub proof fn lemma_tab_steps(s: int, n: int, code: KeyCode)
    requires
        0 <= s < n,
    ensures
        0 <= tab_after_key(code, s, n) < n,
        tab_after_key(KeyCode::BackTab, tab_after_key(KeyCode::Tab, s, n), n) == s,
        tab_after_key(KeyCode::Tab, tab_after_key(KeyCode::BackTab, s, n), n) == s,
        tab_after_key(KeyCode::Left, tab_after_key(KeyCode::Right, s, n), n) == s,
        tab_after_key(KeyCode::Right, tab_after_key(KeyCode::Left, s, n), n) == s,
        0 < s ==> tab_after_key(KeyCode::BackTab, s, n) == s - 1 && tab_after_key(KeyCode::Left, s, n)
            == s - 1,
        s + 1 < n ==> tab_after_key(KeyCode::Tab, s, n) == s + 1 && tab_after_key(KeyCode::Right, s, n)
            == s + 1,
        tab_after_key(KeyCode::Tab, n - 1, n) == 0,
        tab_after_key(KeyCode::BackTab, 0, n) == n - 1,
{
}

impl App {
    /// The latest snapshot of each machine, in the order of the tabs.
    pub closed spec fn spec_machines(&self) -> Seq<Processes> {
        self.machines@
    }

    /// The index of the tab shown.
    pub closed spec fn spec_selected(&self) -> int {
        self.connection as int
    }

    /// Whether the user asked to quit.
    pub closed spec fn spec_exit(&self) -> bool {
        self.exit
    }

    pub closed spec fn wf(&self) -> bool {
        &&& machine_ids_distinct(self.machines@)
        &&& self.machines@.len() == 0 ==> self.connection == 0
        &&& self.machines@.len() > 0 ==> self.connection < self.machines@.len()
    }

    /// A view is well formed exactly when it holds one snapshot per machine
    /// and the tab shown is one of them (the first, while there is none).
    pub proof fn lemma_wf_contents(&self)
        ensures
            self.wf() <==> (machine_ids_distinct(self.spec_machines()) && (if self.spec_machines().len()
                == 0 {
                self.spec_selected() == 0
            } else {
                0 <= self.spec_selected() < self.spec_machines().len()
            })),
    {
    }

    /// A view with no machine yet, not quitting.
    pub fn new() -> (a: Self)
        ensures
            a.wf(),
            a.spec_machines() == Seq::<Processes>::empty(),
            a.spec_selected() == 0,
            !a.spec_exit(),
    {
        App { machines: Vec::new(), connection: 0, exit: false }
    }

    fn find_machine(&self, id: &String) -> (r: Option<usize>)
        requires
            self.wf(),
        ensures
            match r {
                Some(i) => machine_position(self.spec_machines(), id@) == Some(i as int),
                None => machine_position(self.spec_machines(), id@) is None,
            },
    {
        let n = self.machines.len();
        for i in 0..n
            invariant
                n == self.machines.len(),
                self.wf(),
                forall|j: int| 0 <= j < i ==> self.machines@[j].id@ != id@,
        {
            if self.machines[i].id == *id {
                proof {
                    lemma_machine_position(self.machines@, id@, i as int);
                }
                return Some(i);
            }
        }
        None
    }

    /// Stores a snapshot in its machine's tab, or quits, or switches tabs,
    /// on a key press; other events change nothing.
    pub fn handle_event(&mut self, event: SystemEvent)
        requires
            old(self).wf(),
        ensures
            final(self).wf(),
            match event {
                SystemEvent::ProcessEvent(v) => final(self).spec_machines() == store_snapshot(
                    old(self).spec_machines(),
                    v,
                ) && snapshot_for(final(self).spec_machines(), v.id@) == Some(v) && (forall|m: Seq<char>|
                    m != v.id@ ==> #[trigger] snapshot_for(final(self).spec_machines(), m) == snapshot_for(
                        old(self).spec_machines(),
                        m,
                    )) && final(self).spec_selected() == old(self).spec_selected() && final(self).spec_exit()
                    == old(self).spec_exit(),
                SystemEvent::KeyEvent(TerminalEvent::Key(k)) => final(self).spec_machines() == old(
                    self,
                ).spec_machines() && if k.kind == KeyEventKind::Press {
                    final(self).spec_exit() == (old(self).spec_exit() || k.code == KeyCode::Char('q'))
                        && final(self).spec_selected() == tab_after_key(
                        k.code,
                        old(self).spec_selected(),
                        old(self).spec_machines().len() as int,
                    )
                } else {
                    final(self).spec_exit() == old(self).spec_exit() && final(self).spec_selected()
                        == old(self).spec_selected()
                },
                SystemEvent::KeyEvent(TerminalEvent::Other) => final(self).spec_machines() == old(
                    self,
                ).spec_machines() && final(self).spec_selected() == old(self).spec_selected()
                    && final(self).spec_exit() == old(self).spec_exit(),
            },
    {
        match event {
            SystemEvent::KeyEvent(TerminalEvent::Key(key_event)) => {
                if key_event.kind == KeyEventKind::Press {
                    self.handle_key_event(key_event)
                }
            },
            SystemEvent::ProcessEvent(v) => {
                proof {
                    lemma_snapshot_replaces_only_its_machine(self.machines@, v, v.id@);
                    assert forall|m: Seq<char>| m != v.id@ implies #[trigger] snapshot_for(
                        store_snapshot(self.machines@, v),
                        m,
                    ) == snapshot_for(self.machines@, m) by {
                        lemma_snapshot_replaces_only_its_machine(self.machines@, v, m);
                    }
                }
                match self.find_machine(&v.id) {
                    Some(i) => {
                        self.machines.set(i, v);
                    },
                    None => {
                        self.machines.push(v);
                    },
                }
            },
            SystemEvent::KeyEvent(TerminalEvent::Other) => {},
        }
    }

    /// Quits on the `q` key; switches to the next tab on Tab or Right, to
    /// the previous one on BackTab or Left.
    pub fn handle_key_event(&mut self, key_event: KeyEvent)
        requires
            old(self).wf(),
        ensures
            final(self).wf(),
            final(self).spec_machines() == old(self).spec_machines(),
            final(self).spec_exit() == (old(self).spec_exit() || key_event.code == KeyCode::Char('q')),
            final(self).spec_selected() == tab_after_key(
                key_event.code,
                old(self).spec_selected(),
                old(self).spec_machines().len() as int,
            ),
    {
        let count = self.machines.len();
        match key_event.code {
            KeyCode::Char(c) => {
                if c == 'q' {
                    self.exit()
                }
            },
            KeyCode::Tab | KeyCode::Right => {
                self.connection = if count == 0 || self.connection + 1 >= count {
                    0
                } else {
                    self.connection + 1
                };
            },
            KeyCode::BackTab | KeyCode::Left => {
                self.connection = if count == 0 {
                    0
                } else if self.connection == 0 {
                    count - 1
                } else {
                    self.connection - 1
                };
            },
            KeyCode::Other => {},
        }
    }

    pub fn exit(&mut self)
        requires
            old(self).wf(),
        ensures
            final(self).wf(),
            final(self).spec_machines() == old(self).spec_machines(),
            final(self).spec_selected() == old(self).spec_selected(),
            final(self).spec_exit(),
    {
        self.exit = true;
    }

    pub fn is_exiting(&self) -> (b: bool)
        ensures
            b == self.spec_exit(),
    {
        self.exit
    }

    /// The latest snapshot of each machine, in the order of the tabs.
    pub fn machines(&self) -> (ms: &Vec<Processes>)
        ensures
            ms@ == self.spec_machines(),
    {
        &self.machines
    }

    /// The index of the tab shown.
    pub fn selected_index(&self) -> (i: usize)
        ensures
            i == self.spec_selected(),
    {
        self.connection
    }

    /// The snapshot of the machine whose tab is shown; none before the
    /// first snapshot arrives.
    pub fn selected(&self) -> (p: Option<&Processes>)
        requires
            self.wf(),
        ensures
            match p {
                Some(s) => self.spec_machines().len() > 0 && *s == self.spec_machines()[self.spec_selected()],
                None => self.spec_machines().len() == 0,
            },
    {
        if self.machines.len() == 0 {
            None
        } else {
            Some(&self.machines[self.connection])
        }
    }
}

} // verus!
