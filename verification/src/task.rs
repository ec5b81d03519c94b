use crate::dag::sets::members;
use std::collections::HashSet;
use vstd::prelude::*;

verus! {

/// Where the task of a node stands within a step.
#[derive(Clone, Copy, Debug, PartialEq, Eq, Structural)]
pub enum TaskState {
    /// The task was started and has not looked at its dependencies yet.
    Pending,
    /// The task found a dependency that has not committed.
    WaitingOnDependencies,
    /// All dependencies have committed; the block computes and commits.
    Computing,
    /// The block has committed. The task is over.
    Committed,
}

/// What a task does after it was polled.
#[derive(Clone, Copy, Debug, PartialEq, Eq, Structural)]
pub enum TaskAction {
    /// Wait for the task of this node, then poll again.
    Wait(usize),
    /// Compute and commit, then report the commit.
    Compute,
    /// Nothing: the node has no task that looks for work.
    Idle,
}

/// What became of a task that was polled and, where it could, ran.
#[derive(Clone, Copy, Debug, PartialEq, Eq, Structural)]
pub enum TaskPoll {
    /// The task waits for the task of this node.
    Pending(usize),
    /// The block has computed and committed. The task is over.
    Ready,
    /// Nothing: the node has no task that looks for work.
    Idle,
}

/// The tasks of one step: a slot for each node, empty until its task starts.
#[derive(Debug)]
pub struct TaskTable {
    slots: Vec<Option<TaskState>>,
}

impl TaskTable {
    /// The slots, node by node.
    pub closed spec fn spec_slots(&self) -> Seq<Option<TaskState>> {
        self.slots@
    }

    /// The number of slots.
    pub open spec fn spec_len(&self) -> nat {
        self.spec_slots().len()
    }

    /// The task of the node has committed.
    pub open spec fn spec_committed(&self, node: usize) -> bool {
        node < self.spec_len() && self.spec_slots()[node as int] == Some(TaskState::Committed)
    }

    /// The task of the node was started and has not begun to compute.
    pub open spec fn spec_waits(&self, node: usize) -> bool {
        node < self.spec_len() && (self.spec_slots()[node as int] == Some(TaskState::Pending)
            || self.spec_slots()[node as int] == Some(TaskState::WaitingOnDependencies))
    }

    /// The task of the node computes or has committed.
    pub open spec fn spec_released(&self, node: usize) -> bool {
        node < self.spec_len() && (self.spec_slots()[node as int] == Some(TaskState::Computing)
            || self.spec_slots()[node as int] == Some(TaskState::Committed))
    }

    /// No block computes before every block that it depends on has committed.
    pub open spec fn respects(&self, deps: Seq<Set<usize>>) -> bool {
        forall|node: usize, from: usize|
            #![trigger self.spec_released(node), deps[node as int].contains(from)]
            self.spec_released(node) && node < deps.len() && deps[node as int].contains(from)
                ==> self.spec_committed(from)
    }

    /// A table of `len` empty slots.
    pub fn new(len: usize) -> (table: Self)
        ensures
            table.spec_slots() == Seq::new(len as nat, |i: int| None::<TaskState>),
    {
        let mut slots: Vec<Option<TaskState>> = Vec::new();
        let mut i: usize = 0;
        while i < len
            invariant
                i <= len,
                slots@ == Seq::new(i as nat, |j: int| None::<TaskState>),
            decreases len - i,
        {
            slots.push(None);
            proof {
                assert(slots@ =~= Seq::new((i + 1) as nat, |j: int| None::<TaskState>));
            }
            i += 1;
        }
        TaskTable { slots }
    }

    /// The slot of a node.
    pub fn state(&self, node: usize) -> (state: Option<TaskState>)
        requires
            node < self.spec_len(),
        ensures
            state == self.spec_slots()[node as int],
    {
        self.slots[node]
    }

    /// Starts the task of a node whose slot is empty; another slot is left as
    /// it is.
    pub fn spawn(&mut self, node: usize) -> (started: bool)
        requires
            node < old(self).spec_len(),
        ensures
            started == (old(self).spec_slots()[node as int] is None),
            started ==> final(self).spec_slots() == old(self).spec_slots().update(
                node as int,
                Some(TaskState::Pending),
            ),
            !started ==> final(self).spec_slots() == old(self).spec_slots(),
            forall|deps: Seq<Set<usize>>| #[trigger]
                old(self).respects(deps) ==> final(self).respects(deps),
    {
        match self.slots[node] {
            None => {
                self.slots[node] = Some(TaskState::Pending);
                proof {
                    assert forall|deps: Seq<Set<usize>>| #[trigger]
                        old(self).respects(deps) implies final(self).respects(deps) by {
                        assert forall|n: usize, from: usize|
                            #![trigger final(self).spec_released(n), deps[n as int].contains(from)]
                            final(self).spec_released(n) && n < deps.len() && deps[n as int].contains(
                                from,
                            ) implies final(self).spec_committed(from) by {
                            assert(old(self).spec_released(n));
                            assert(old(self).spec_committed(from));
                        }
                    }
                }
                true
            },
            Some(_) => false,
        }
    }

    /// Looks for a dependency that has not committed.
    fn unfinished(&self, deps: &HashSet<usize>) -> (found: Option<usize>)
        requires
            forall|from: usize| deps@.contains(from) ==> from < self.spec_len(),
        ensures
            match found {
                Some(from) => deps@.contains(from) && !self.spec_committed(from),
                None => forall|from: usize| deps@.contains(from) ==> self.spec_committed(from),
            },
    {
        let froms = members(deps);
        let mut i: usize = 0;
        while i < froms.len()
            invariant
                i <= froms.len(),
                froms@.to_set() == deps@,
                forall|from: usize| deps@.contains(from) ==> from < self.spec_len(),
                forall|j: int| 0 <= j < i ==> self.spec_committed(#[trigger] froms@[j]),
            decreases froms.len() - i,
        {
            let from = froms[i];
            proof {
                assert(froms@.to_set().contains(from));
            }
            match self.slots[from] {
                Some(TaskState::Committed) => {},
                _ => {
                    return Some(from);
                },
            }
            i += 1;
        }
        proof {
            assert forall|from: usize| deps@.contains(from) implies self.spec_committed(from) by {
                assert(froms@.to_set().contains(from));
                let j = choose|j: int| 0 <= j < froms@.len() && froms@[j] == from;
                assert(self.spec_committed(froms@[j]));
            }
        }
        None
    }

    /// Polls the task of `node`, which depends on the nodes of `deps`. A
    /// task that has not begun to compute goes on to compute once all of
    /// them have committed, and waits for one that has not, otherwise.
    pub fn poll(&mut self, node: usize, deps: &HashSet<usize>) -> (action: TaskAction)
        requires
            node < old(self).spec_len(),
            forall|from: usize| deps@.contains(from) ==> from < old(self).spec_len(),
        ensures
            final(self).spec_len() == old(self).spec_len(),
            forall|other: int|
                0 <= other < old(self).spec_len() && other != node ==> final(self).spec_slots()[other]
                    == old(self).spec_slots()[other],
            match old(self).spec_slots()[node as int] {
                Some(TaskState::Pending) | Some(TaskState::WaitingOnDependencies) => match action {
                    TaskAction::Compute => final(self).spec_slots()[node as int] == Some(
                        TaskState::Computing,
                    ) && forall|from: usize| deps@.contains(from) ==> old(self).spec_committed(from),
                    TaskAction::Wait(from) => final(self).spec_slots()[node as int] == Some(
                        TaskState::WaitingOnDependencies,
                    ) && deps@.contains(from) && !old(self).spec_committed(from),
                    TaskAction::Idle => false,
                },
                _ => action == TaskAction::Idle && final(self).spec_slots() == old(self).spec_slots(),
            },
            forall|graph: Seq<Set<usize>>| #[trigger]
                old(self).respects(graph) && node < graph.len() && graph[node as int] == deps@
                    ==> final(self).respects(graph),
    {
        let action = match self.slots[node] {
            Some(TaskState::Pending) | Some(TaskState::WaitingOnDependencies) => {
                match self.unfinished(deps) {
                    Some(from) => {
                        self.slots[node] = Some(TaskState::WaitingOnDependencies);
                        TaskAction::Wait(from)
                    },
                    None => {
                        self.slots[node] = Some(TaskState::Computing);
                        TaskAction::Compute
                    },
                }
            },
            _ => TaskAction::Idle,
        };
        proof {
            assert forall|graph: Seq<Set<usize>>| #[trigger]
                old(self).respects(graph) && node < graph.len() && graph[node as int]
                    == deps@ implies final(self).respects(graph) by {
                assert forall|n: usize, from: usize|
                    #![trigger final(self).spec_released(n), graph[n as int].contains(from)]
                    final(self).spec_released(n) && n < graph.len() && graph[n as int].contains(
                        from,
                    ) implies final(self).spec_committed(from) by {
                    if n != node {
                        assert(old(self).spec_released(n));
                        assert(old(self).spec_committed(from));
                    } else {
                        assert(deps@.contains(from));
                        assert(old(self).spec_committed(from));
                    }
                }
            }
        }
        action
    }

    /// Records the commit of a block whose task computes; another task is
    /// left as it is.
    pub fn commit(&mut self, node: usize) -> (done: bool)
        requires
            node < old(self).spec_len(),
        ensures
            done == (old(self).spec_slots()[node as int] == Some(TaskState::Computing)),
            done ==> final(self).spec_slots() == old(self).spec_slots().update(
                node as int,
                Some(TaskState::Committed),
            ),
            !done ==> final(self).spec_slots() == old(self).spec_slots(),
            forall|deps: Seq<Set<usize>>| #[trigger]
                old(self).respects(deps) ==> final(self).respects(deps),
    {
        match self.slots[node] {
            Some(TaskState::Computing) => {
                self.slots[node] = Some(TaskState::Committed);
                proof {
                    assert forall|deps: Seq<Set<usize>>| #[trigger]
                        old(self).respects(deps) implies final(self).respects(deps) by {
                        assert forall|n: usize, from: usize|
                            #![trigger final(self).spec_released(n), deps[n as int].contains(from)]
                            final(self).spec_released(n) && n < deps.len() && deps[n as int].contains(
                                from,
                            ) implies final(self).spec_committed(from) by {
                            assert(old(self).spec_released(n));
                            assert(old(self).spec_committed(from));
                        }
                    }
                }
                true
            },
            _ => false,
        }
    }

    /// The barrier at the end of a step: the first node whose task has not
    /// committed, or none if all have.
    pub fn first_unfinished(&self) -> (found: Option<usize>)
        ensures
            match found {
                Some(node) => node < self.spec_len() && !self.spec_committed(node) && forall|
                    other: usize,
                |
                    other < node ==> self.spec_committed(other),
                None => forall|other: usize| other < self.spec_len() ==> self.spec_committed(other),
            },
    {
        let mut i: usize = 0;
        while i < self.slots.len()
            invariant
                i <= self.spec_len(),
                forall|other: usize| other < i ==> self.spec_committed(other),
            decreases self.spec_len() - i,
        {
            match self.slots[i] {
                Some(TaskState::Committed) => {},
                _ => {
                    return Some(i);
                },
            }
            i += 1;
        }
        None
    }
}

} // verus!
