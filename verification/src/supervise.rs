//! The supervisor's decisions: what each wait status of a tracee does to the
//! table of processes, and how the tracee is to be resumed.

use crate::process::{Process, ProcessState, ProcessView};
use vstd::prelude::*;

verus! {

/// The number of the trap signal, which a breakpoint raises.
pub const SIGTRAP: i32 = 5;

/// What the kernel reports of a tracee.
#[derive(Debug, Clone, Copy, PartialEq, Eq, Structural)]
pub enum WaitEvent {
    /// The process left with an exit status.
    Exited { pid: i32, status: i32 },
    /// The process was killed by a signal.
    Signaled { pid: i32, signal: i32 },
    /// The tracee stopped because `signal` is about to be delivered.
    Stopped { pid: i32, signal: i32 },
    /// The tracee stopped after creating the thread `child`.
    Cloned { pid: i32, child: i32 },
    /// The tracee stopped after forking the process `child`.
    Forked { pid: i32, child: i32 },
    /// The tracee stopped after replacing its program.
    Execed { pid: i32 },
    /// The tracee stopped on its way out.
    Exiting { pid: i32 },
    /// Nothing changed.
    StillAlive,
}

/// What the supervisor does in answer to a wait status.
#[derive(Debug, Clone, Copy, PartialEq, Eq, Structural)]
pub enum Action {
    /// Nothing is to be done.
    Nothing,
    /// Let the tracee run on, and deliver `signal` to it if there is one.
    Resume { pid: i32, signal: Option<i32> },
    /// The tracee ran into a breakpoint: the trap is not delivered, and the
    /// tracee is handed to the code that steps it over the breakpoint.
    Breakpoint { pid: i32 },
}

/// The position of the process `pid` in the table, if it is there.
pub open spec fn position(table: Seq<ProcessView>, pid: i32) -> Option<int>
    decreases table.len(),
{
    if table.len() == 0 {
        None
    } else if table.last().pid == pid {
        Some(table.len() - 1)
    } else {
        position(table.drop_last(), pid)
    }
}

/// The table once `event` has been taken in.
pub open spec fn table_after(table: Seq<ProcessView>, event: WaitEvent) -> Seq<ProcessView> {
    match event {
        WaitEvent::Exited { pid, .. } | WaitEvent::Signaled { pid, .. } => match position(
            table,
            pid,
        ) {
            Some(at) => table.remove(at),
            None => table,
        },
        WaitEvent::Stopped { pid, .. } => with_state(table, pid, ProcessState::Running),
        WaitEvent::Cloned { pid, child } | WaitEvent::Forked { pid, child } => match position(
            table,
            pid,
        ) {
            Some(at) => if position(table, child) is None {
                with_state(table, pid, ProcessState::Running).push(
                    ProcessView { pid: child, state: ProcessState::Running, space: table[at].space },
                )
            } else {
                with_state(table, pid, ProcessState::Running)
            },
            None => table,
        },
        WaitEvent::Execed { pid } => match position(table, pid) {
            Some(at) => table.update(
                at,
                ProcessView {
                    pid,
                    state: ProcessState::Running,
                    space: crate::process::AddressSpaceView {
                        breakpoints: Map::empty(),
                        segments: Map::empty(),
                    },
                },
            ),
            None => table,
        },
        WaitEvent::Exiting { pid } => with_state(table, pid, ProcessState::Exiting),
        WaitEvent::StillAlive => table,
    }
}

/// The table with the process `pid`, if it is there, moved to `state`.
pub open spec fn with_state(table: Seq<ProcessView>, pid: i32, state: ProcessState) -> Seq<
    ProcessView,
> {
    match position(table, pid) {
        Some(at) => table.update(at, ProcessView { state, ..table[at] }),
        None => table,
    }
}

/// The supervisor's answer to `event`. A tracee that stopped is always let
/// run on: a trap is consumed, any other signal is delivered.
pub open spec fn action_for(event: WaitEvent) -> Action {
    match event {
        WaitEvent::Exited { .. } | WaitEvent::Signaled { .. } | WaitEvent::StillAlive => Action::Nothing,
        WaitEvent::Stopped { pid, signal } => if signal == SIGTRAP {
            Action::Breakpoint { pid }
        } else {
            Action::Resume { pid, signal: Some(signal) }
        },
        WaitEvent::Cloned { pid, .. } | WaitEvent::Forked { pid, .. } | WaitEvent::Execed { pid }
        | WaitEvent::Exiting { pid } => Action::Resume { pid, signal: None },
    }
}

/// Whether no two entries of the table have the same process id.
pub open spec fn distinct_pids(table: Seq<ProcessView>) -> bool {
    forall|i: int, j: int| 0 <= i < j < table.len() ==> table[i].pid != table[j].pid
}

/// The table of traced threads and processes.
#[derive(Debug)]
pub struct Tracees {
    procs: Vec<Process>,
}

impl View for Tracees {
    type V = Seq<ProcessView>;

    closed spec fn view(&self) -> Seq<ProcessView> {
        self.procs@.map_values(|p: Process| p@)
    }
}

/// What `position` says of its result.
pub proof fn lemma_position(table: Seq<ProcessView>, pid: i32)
    ensures
        match position(table, pid) {
            Some(at) => 0 <= at < table.len() && table[at].pid == pid && forall|k: int|
                at < k < table.len() ==> table[k].pid != pid,
            None => forall|k: int| 0 <= k < table.len() ==> table[k].pid != pid,
        },
    decreases table.len(),
{
    if table.len() > 0 && table.last().pid != pid {
        lemma_position(table.drop_last(), pid);
        match position(table.drop_last(), pid) {
            Some(at) => {
                assert forall|k: int| at < k < table.len() implies table[k].pid != pid by {
                    if k < table.len() - 1 {
                        assert(table.drop_last()[k] == table[k]);
                    }
                }
            },
            None => {
                assert forall|k: int| 0 <= k < table.len() implies table[k].pid != pid by {
                    if k < table.len() - 1 {
                        assert(table.drop_last()[k] == table[k]);
                    }
                }
            },
        }
    }
}

impl Tracees {
    /// The table that holds the one process `primary`.
    pub fn new(primary: Process) -> (table: Tracees)
        ensures
            table@ == seq![primary@],
    {
        let mut procs: Vec<Process> = Vec::new();
        procs.push(primary);
        let table = Tracees { procs };
        assert(table@ =~= seq![primary@]);
        table
    }

    /// The number of entries.
    pub fn len(&self) -> (len: usize)
        ensures
            len == self@.len(),
    {
        self.procs.len()
    }

    /// Where in the table the process `pid` stands, if it is there.
    pub fn find(&self, pid: i32) -> (found: Option<usize>)
        ensures
            match found {
                Some(at) => position(self@, pid) == Some(at as int),
                None => position(self@, pid) is None,
            },
    {
        let mut i = self.procs.len();
        assert(self@.take(i as int) =~= self@);
        while i > 0
            invariant
                i <= self.procs.len(),
                position(self@, pid) == position(self@.take(i as int), pid),
            decreases i,
        {
            i -= 1;
            proof {
                assert(self@.take(i + 1).drop_last() =~= self@.take(i as int));
                assert(self@.take(i + 1).last() == self.procs[i as int]@);
            }
            if self.procs[i].pid() == pid {
                return Some(i);
            }
        }
        None
    }

    /// The entry at `at`.
    pub fn get(&self, at: usize) -> (process: &Process)
        requires
            at < self@.len(),
        ensures
            process@ == self@[at as int],
    {
        &self.procs[at]
    }

    /// Adds a process that the table does not hold yet; one that it holds is
    /// left as it is.
    pub fn add_child(&mut self, child: Process) -> (added: bool)
        ensures
            added == (position(old(self)@, child@.pid) is None),
            final(self)@ == if added {
                old(self)@.push(child@)
            } else {
                old(self)@
            },
    {
        match self.find(child.pid()) {
            Some(_) => false,
            None => {
                let ghost before = self@;
                self.procs.push(child);
                assert(self@ =~= before.push(child@));
                true
            },
        }
    }

    fn set_state(&mut self, pid: i32, state: ProcessState)
        ensures
            final(self)@ == with_state(old(self)@, pid, state),
    {
        match self.find(pid) {
            None => {},
            Some(at) => {
                let ghost before = self@;
                proof {
                    lemma_position(before, pid);
                }
                self.procs[at].set_state(state);
                assert(self@ =~= before.update(
                    at as int,
                    ProcessView { state, ..before[at as int] },
                ));
            },
        }
    }

    /// Takes in a wait status: brings the table up to date, and says how to
    /// answer the tracee.
    pub fn handle(&mut self, event: WaitEvent) -> (action: Action)
        ensures
            final(self)@ == table_after(old(self)@, event),
            action == action_for(event),
    {
        let ghost before = self@;
        match event {
            WaitEvent::Exited { pid, .. } | WaitEvent::Signaled { pid, .. } => {
                match self.find(pid) {
                    None => {},
                    Some(at) => {
                        proof {
                            lemma_position(before, pid);
                        }
                        let _ = self.procs.remove(at);
                        assert(self@ =~= before.remove(at as int));
                    },
                }
                Action::Nothing
            },
            WaitEvent::Stopped { pid, signal } => {
                self.set_state(pid, ProcessState::Running);
                if signal == SIGTRAP {
                    Action::Breakpoint { pid }
                } else {
                    Action::Resume { pid, signal: Some(signal) }
                }
            },
            WaitEvent::Cloned { pid, child } => {
                match self.find(pid) {
                    None => {},
                    Some(at) => {
                        proof {
                            lemma_position(before, pid);
                        }
                        let thread = self.procs[at].new_thread(child);
                        let known = self.find(child);
                        self.set_state(pid, ProcessState::Running);
                        if known.is_none() {
                            let ghost midway = self@;
                            self.procs.push(thread);
                            assert(self@ =~= midway.push(thread@));
                        }
                    },
                }
                Action::Resume { pid, signal: None }
            },
            WaitEvent::Forked { pid, child } => {
                match self.find(pid) {
                    None => {},
                    Some(at) => {
                        proof {
                            lemma_position(before, pid);
                        }
                        let forked = self.procs[at].fork_process(child);
                        let known = self.find(child);
                        self.set_state(pid, ProcessState::Running);
                        if known.is_none() {
                            let ghost midway = self@;
                            self.procs.push(forked);
                            assert(self@ =~= midway.push(forked@));
                        }
                    },
                }
                Action::Resume { pid, signal: None }
            },
            WaitEvent::Execed { pid } => {
                match self.find(pid) {
                    None => {},
                    Some(at) => {
                        proof {
                            lemma_position(before, pid);
                            assert(crate::process::collected(Seq::<(u64, u64)>::empty())
                                =~= Map::<u64, u64>::empty());
                        }
                        self.procs[at].exec(Vec::new());
                        self.procs[at].set_state(ProcessState::Running);
                        assert(self@ =~= table_after(before, event));
                    },
                }
                Action::Resume { pid, signal: None }
            },
            WaitEvent::Exiting { pid } => {
                self.set_state(pid, ProcessState::Exiting);
                Action::Resume { pid, signal: None }
            },
            WaitEvent::StillAlive => Action::Nothing,
        }
    }
}

/// Taking in a wait status keeps the table free of entries with the same
/// process id.
pub proof fn law_pids_stay_distinct(table: Seq<ProcessView>, event: WaitEvent)
    requires
        distinct_pids(table),
    ensures
        distinct_pids(table_after(table, event)),
{
    let after = table_after(table, event);
    match event {
        WaitEvent::Exited { pid, .. } | WaitEvent::Signaled { pid, .. } => {
            lemma_position(table, pid);
        },
        WaitEvent::Stopped { pid, .. } => {
            lemma_position(table, pid);
        },
        WaitEvent::Cloned { pid, child } | WaitEvent::Forked { pid, child } => {
            lemma_position(table, pid);
            lemma_position(table, child);
        },
        WaitEvent::Execed { pid } => {
            lemma_position(table, pid);
        },
        WaitEvent::Exiting { pid } => {
            lemma_position(table, pid);
        },
        WaitEvent::StillAlive => {},
    }
}

/// A process that exits or is killed is gone from the table afterwards.
pub proof fn law_exit_forgets(table: Seq<ProcessView>, pid: i32, status: i32)
    requires
        distinct_pids(table),
    ensures
        position(table_after(table, WaitEvent::Exited { pid, status }), pid) is None,
        position(table_after(table, WaitEvent::Signaled { pid, signal: status }), pid) is None,
{
    lemma_position(table, pid);
    let after = table_after(table, WaitEvent::Exited { pid, status });
    assert(after == table_after(table, WaitEvent::Signaled { pid, signal: status }));
    lemma_position(after, pid);
}

/// The thread that a clone creates shares the address space of its parent,
/// and so does, at the moment of the fork, the process that a fork creates.
pub proof fn law_child_has_parents_space(table: Seq<ProcessView>, pid: i32, child: i32)
    requires
        position(table, pid) is Some,
        position(table, child) is None,
    ensures
        ({
            let after = table_after(table, WaitEvent::Cloned { pid, child });
            &&& after == table_after(table, WaitEvent::Forked { pid, child })
            &&& position(after, child) == Some(after.len() - 1)
            &&& after.last().space == table[position(table, pid)->0].space
        }),
{
    lemma_position(table, pid);
}

} // verus!
