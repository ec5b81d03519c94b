use crate::block::Block;
use crate::block::BlockInput;
use crate::dag::walks::closed_graph;
use crate::dag::walks::connected;
use crate::dag::walks::has_cycle;
use crate::dag::sets::lemma_take_next;
use crate::dag::walks::is_schedule;
use crate::dag::walks::lemma_producer_is_earlier;
use crate::dag::walks::lemma_schedule_bound;
use crate::dag::walks::sources;
use crate::dag::Dag;
use crate::dag::DagError;
use crate::settle::lemma_run_more;
use crate::settle::lemma_run_none;
use crate::settle::outputs_of;
use crate::settle::runs;
use crate::settle::settled;
use crate::settle::wired;
use crate::step::in_step;
use crate::step::lemma_step_begins;
use crate::step::lemma_step_commits;
use crate::step::lemma_step_ends;
use crate::step::lemma_step_waits;
use crate::task::TaskAction;
use crate::task::TaskPoll;
use crate::task::TaskState;
use crate::task::TaskTable;
use std::marker::PhantomData;
use vstd::prelude::*;

verus! {

/// Names the type of block that a handle stands for.
pub trait BlockType {
    type BlockType;
}

/// What `add_block` hands out for a block: the identifier of its node, tagged
/// with the block's type.
pub struct BlockHandle<T> {
    block_id: usize,
    data_type: PhantomData<T>,
}

impl<T> Clone for BlockHandle<T> {
    fn clone(&self) -> (handle: Self)
        ensures
            handle == *self,
    {
        BlockHandle { block_id: self.block_id, data_type: PhantomData }
    }
}

impl<T> Copy for BlockHandle<T> {

}

impl<T> BlockType for BlockHandle<T> {
    type BlockType = T;
}

impl<T> BlockHandle<T> {
    /// The identifier, as contracts see it.
    pub closed spec fn spec_id(&self) -> usize {
        self.block_id
    }

    pub fn id(&self) -> (id: usize)
        ensures
            id == self.spec_id(),
    {
        self.block_id
    }
}

/// A network of blocks: each block sits in a node of a dependency graph, and
/// every binding of an input is an edge of that graph.
pub struct Model<B> {
    dag: Dag<B>,
}

impl<B: Block> Model<B> {
    /// The blocks, node by node.
    pub closed spec fn spec_blocks(&self) -> Seq<B> {
        Seq::new(self.dag.spec_nodes().len(), |i: int| self.dag.spec_nodes()[i].value())
    }

    /// The dependency set of each node.
    pub closed spec fn spec_dependencies(&self) -> Seq<Set<usize>> {
        self.dag.spec_dependencies()
    }

    /// The number of blocks.
    pub open spec fn spec_len(&self) -> nat {
        self.spec_blocks().len()
    }

    /// The graph underneath is well formed.
    pub closed spec fn spec_graph_wf(&self) -> bool {
        self.dag.wf()
    }

    /// The graph is well formed, and every input of every block is bound
    /// along one of its edges.
    pub open spec fn wf(&self) -> bool {
        &&& self.spec_graph_wf()
        &&& closed_graph(self.spec_dependencies())
        &&& wired(self.spec_blocks(), self.spec_dependencies())
    }

    pub fn new() -> (model: Self)
        ensures
            model.wf(),
            model.spec_blocks() == Seq::<B>::empty(),
            model.spec_dependencies() == Seq::<Set<usize>>::empty(),
    {
        let model = Model { dag: Dag::new() };
        proof {
            assert(model.spec_blocks() =~= Seq::<B>::empty());
        }
        model
    }

    /// Adds a block, none of whose inputs is bound yet, as a node of its own.
    pub fn add_block(&mut self, new_block: B) -> (handle: BlockHandle<B>)
        requires
            old(self).wf(),
            new_block.spec_inputs() == Set::<usize>::empty(),
        ensures
            final(self).wf(),
            handle.spec_id() == old(self).spec_len(),
            final(self).spec_blocks() == old(self).spec_blocks().push(new_block),
            final(self).spec_dependencies() == old(self).spec_dependencies().push(Set::empty()),
    {
        let id = self.dag.add_node(new_block);
        proof {
            let nodes = final(self).dag.spec_nodes();
            assert(nodes.take(id as int) == old(self).dag.spec_nodes());
            assert forall|i: int| 0 <= i < id implies #[trigger] nodes[i] == old(self).dag.spec_nodes()[i] by {
                assert(nodes.take(id as int)[i] == nodes[i]);
            }
            assert(final(self).spec_blocks() =~= old(self).spec_blocks().push(new_block));
            let blocks = final(self).spec_blocks();
            let deps = final(self).spec_dependencies();
            assert forall|to: int, from: usize|
                0 <= to < deps.len() && #[trigger] deps[to].contains(from) implies from
                < deps.len() by {
                if to < id {
                    assert(old(self).spec_dependencies()[to].contains(from));
                }
            }
            assert forall|i: int, from: usize|
                0 <= i < blocks.len() && #[trigger] blocks[i].spec_inputs().contains(
                    from,
                ) implies deps[i].contains(from) by {
                if i < id {
                    assert(old(self).spec_blocks()[i].spec_inputs().contains(from));
                }
            }
        }
        BlockHandle { block_id: id, data_type: PhantomData }
    }

    /// The dependency graph underneath.
    pub fn get_dag(&self) -> (dag: &Dag<B>)
        requires
            self.wf(),
        ensures
            dag.wf(),
            dag.spec_dependencies() == self.spec_dependencies(),
            dag.spec_len() == self.spec_len(),
            forall|i: int| 0 <= i < self.spec_len() ==> (#[trigger] dag.spec_nodes()[i]).value()
                == self.spec_blocks()[i],
    {
        &self.dag
    }

    pub fn get_block_by_id(&self, block_id: usize) -> (block: &B)
        requires
            block_id < self.spec_len(),
        ensures
            *block == self.spec_blocks()[block_id as int],
    {
        self.dag.get_node(block_id).get_value()
    }

    pub fn get_block(&self, block_handle: &BlockHandle<B>) -> (block: &B)
        requires
            block_handle.spec_id() < self.spec_len(),
        ensures
            *block == self.spec_blocks()[block_handle.spec_id() as int],
    {
        self.get_block_by_id(block_handle.id())
    }

    fn get_mut_block(&mut self, block_id: usize) -> (block: &mut B)
        requires
            old(self).spec_graph_wf(),
            block_id < old(self).spec_len(),
        ensures
            *block == old(self).spec_blocks()[block_id as int],
            final(self).spec_graph_wf(),
            final(self).spec_blocks() == old(self).spec_blocks().update(
                block_id as int,
                *final(block),
            ),
            final(self).spec_dependencies() == old(self).spec_dependencies(),
    {
        let node = self.dag.get_mut_node(block_id);
        node.get_mut_value()
    }

    /// Binds the input `slot` of the second block to the output of the first,
    /// and records the dependency in the graph.
    pub fn connect(
        &mut self,
        block1_handle: &BlockHandle<B>,
        block2_handle: &BlockHandle<B>,
        slot: usize,
    )
        requires
            old(self).wf(),
            block1_handle.spec_id() < old(self).spec_len(),
            block2_handle.spec_id() < old(self).spec_len(),
        ensures
            final(self).wf(),
            final(self).spec_dependencies() == connected(
                old(self).spec_dependencies(),
                block1_handle.spec_id(),
                block2_handle.spec_id(),
            ),
            final(self).spec_blocks() == old(self).spec_blocks().update(
                block2_handle.spec_id() as int,
                old(self).spec_blocks()[block2_handle.spec_id() as int].spec_set_input(
                    slot,
                    BlockInput::spec_new(block1_handle.spec_id()),
                ),
            ),
            outputs_of(final(self).spec_blocks()) == outputs_of(old(self).spec_blocks()),
    {
        let from = block1_handle.id();
        let to = block2_handle.id();
        let block = self.get_mut_block(to);
        block.set_input(slot, BlockInput::new(from));
        self.dag.connect(from, to);
        proof {
            let input = BlockInput::<B::Value>::spec_new(from);
            old(self).spec_blocks()[to as int].lemma_set_input(slot, input);
            BlockInput::<B::Value>::lemma_new_source(from);
            assert(outputs_of(final(self).spec_blocks()) =~= outputs_of(old(self).spec_blocks()));
            let blocks = final(self).spec_blocks();
            let deps = final(self).spec_dependencies();
            assert forall|i: int, id: usize|
                0 <= i < blocks.len() && #[trigger] blocks[i].spec_inputs().contains(
                    id,
                ) implies deps[i].contains(id) by {
                if i != to {
                    assert(old(self).spec_blocks()[i].spec_inputs().contains(id));
                } else if id != from {
                    assert(old(self).spec_blocks()[i].spec_inputs().contains(id));
                }
            }
        }
    }

    /// The committed outputs of all blocks.
    pub fn outputs(&self) -> (outputs: Vec<B::Value>)
        requires
            self.wf(),
        ensures
            outputs@ == outputs_of(self.spec_blocks()),
    {
        let n = self.dag.get_num_nodes();
        let mut outputs: Vec<B::Value> = Vec::new();
        let mut i: usize = 0;
        while i < n
            invariant
                i <= n,
                n == self.spec_len(),
                outputs@ == outputs_of(self.spec_blocks()).take(i as int),
            decreases n - i,
        {
            outputs.push(self.get_block_by_id(i).output());
            proof {
                assert(outputs@ =~= outputs_of(self.spec_blocks()).take(i + 1));
            }
            i += 1;
        }
        proof {
            assert(outputs@ =~= outputs_of(self.spec_blocks()));
        }
        outputs
    }

    /// What the block of node `block_id` computes from the committed outputs.
    pub fn calc_block(&self, block_id: usize, outputs: &Vec<B::Value>) -> (next: B::Value)
        requires
            self.wf(),
            block_id < self.spec_len(),
            outputs@.len() == self.spec_len(),
        ensures
            next == self.spec_blocks()[block_id as int].spec_calc(outputs@),
    {
        let block = self.get_block_by_id(block_id);
        proof {
            assert forall|id: usize| block.spec_inputs().contains(id) implies id < outputs.len() by {
                assert(self.spec_blocks()[block_id as int].spec_inputs().contains(id));
                assert(self.spec_dependencies()[block_id as int].contains(id));
            }
        }
        block.calc(outputs)
    }

    /// Has the block of node `block_id` commit `next`.
    pub fn update_block(&mut self, block_id: usize, next: B::Value)
        requires
            old(self).wf(),
            block_id < old(self).spec_len(),
        ensures
            final(self).wf(),
            final(self).spec_dependencies() == old(self).spec_dependencies(),
            final(self).spec_blocks() == old(self).spec_blocks().update(
                block_id as int,
                old(self).spec_blocks()[block_id as int].spec_update(next),
            ),
    {
        let block = self.get_mut_block(block_id);
        block.update(next);
        proof {
            old(self).spec_blocks()[block_id as int].lemma_update_keeps_inputs(next);
        }
    }

    /// Opens a step: starts the task of every block, in the order in which a
    /// pass over the graph reaches the blocks, and hands out the table of
    /// these tasks together with that order. No task is started where the
    /// graph cannot be scheduled.
    pub fn start_step(&self) -> (res: Result<(TaskTable, Vec<usize>), DagError>)
        requires
            self.wf(),
        ensures
            match res {
                Ok((table, order)) => {
                    &&& is_schedule(self.spec_dependencies(), order@)
                    &&& !has_cycle(self.spec_dependencies())
                    &&& sources(self.spec_dependencies()) != Set::<usize>::empty()
                    &&& table.spec_slots() == Seq::new(
                        self.spec_len(),
                        |i: int| Some(TaskState::Pending),
                    )
                    &&& in_step(self.spec_blocks(), self.spec_blocks(), table, self.spec_dependencies())
                },
                Err(DagError::NoRoots) => sources(self.spec_dependencies()) == Set::<usize>::empty(),
                Err(DagError::CycleDetected) => sources(self.spec_dependencies()) != Set::<
                    usize,
                >::empty() && has_cycle(self.spec_dependencies()),
            },
    {
        let order = match self.dag.bfs_order() {
            Ok(order) => order,
            Err(e) => {
                return Err(e);
            },
        };
        let n = self.dag.get_num_nodes();
        let mut table = TaskTable::new(n);
        let mut k: usize = 0;
        while k < order.len()
            invariant
                k <= order.len(),
                self.wf(),
                n == self.spec_len(),
                is_schedule(self.spec_dependencies(), order@),
                table.spec_len() == n,
                forall|u: usize|
                    u < n ==> #[trigger] table.spec_slots()[u as int] == (if order@.take(
                        k as int,
                    ).contains(u) {
                        Some(TaskState::Pending)
                    } else {
                        None
                    }),
            decreases order.len() - k,
        {
            let node_id = order[k];
            let ghost slots = table.spec_slots();
            table.spawn(node_id);
            proof {
                assert forall|u: usize| u < n implies #[trigger] table.spec_slots()[u as int] == (
                if order@.take(k + 1).contains(u) {
                    Some(TaskState::Pending)
                } else {
                    None
                }) by {
                    lemma_take_next(order@, k as int, u);
                    assert(slots[u as int] == (if order@.take(k as int).contains(u) {
                        Some(TaskState::Pending)
                    } else {
                        None
                    }));
                }
            }
            k += 1;
        }
        proof {
            assert(order@.take(order@.len() as int) == order@);
            assert forall|i: int| 0 <= i < n implies #[trigger] table.spec_slots()[i] == Some(
                TaskState::Pending,
            ) by {
                let u = i as usize;
                assert(order@.contains(u));
                assert(table.spec_slots()[u as int] == Some(TaskState::Pending));
            }
            assert(table.spec_slots() =~= Seq::new(
                self.spec_len(),
                |i: int| Some(TaskState::Pending),
            ));
            lemma_step_begins(self.spec_blocks(), table, self.spec_dependencies());
        }
        Ok((table, order))
    }

    /// Polls the task of a block and lets it run where it can: a task that
    /// has not run yet and finds that every block it depends on has committed
    /// has its block compute and commit, and is over; one that finds a block
    /// that has not committed waits for it. `outputs` is the table of
    /// committed outputs, which the commit brings up to date.
    pub fn poll_task(
        &mut self,
        table: &mut TaskTable,
        outputs: &mut Vec<B::Value>,
        node_id: usize,
    ) -> (polled: TaskPoll)
        requires
            old(self).wf(),
            node_id < old(self).spec_len(),
            old(table).spec_len() == old(self).spec_len(),
            old(outputs)@ == outputs_of(old(self).spec_blocks()),
        ensures
            final(self).wf(),
            final(self).spec_dependencies() == old(self).spec_dependencies(),
            final(table).spec_len() == old(table).spec_len(),
            final(outputs)@ == outputs_of(final(self).spec_blocks()),
            match polled {
                TaskPoll::Ready => {
                    &&& old(table).spec_waits(node_id)
                    &&& forall|from: usize|
                        old(self).spec_dependencies()[node_id as int].contains(from) ==> old(table).spec_committed(from)
                    &&& final(table).spec_slots() == old(table).spec_slots().update(
                        node_id as int,
                        Some(TaskState::Committed),
                    )
                    &&& final(self).spec_blocks() == old(self).spec_blocks().update(
                        node_id as int,
                        old(self).spec_blocks()[node_id as int].spec_update(
                            old(self).spec_blocks()[node_id as int].spec_calc(
                                outputs_of(old(self).spec_blocks()),
                            ),
                        ),
                    )
                },
                TaskPoll::Pending(from) => {
                    &&& old(table).spec_waits(node_id)
                    &&& old(self).spec_dependencies()[node_id as int].contains(from)
                    &&& !old(table).spec_committed(from)
                    &&& final(table).spec_slots() == old(table).spec_slots().update(
                        node_id as int,
                        Some(TaskState::WaitingOnDependencies),
                    )
                    &&& final(self).spec_blocks() == old(self).spec_blocks()
                },
                TaskPoll::Idle => {
                    &&& !old(table).spec_waits(node_id)
                    &&& final(table).spec_slots() == old(table).spec_slots()
                    &&& final(self).spec_blocks() == old(self).spec_blocks()
                },
            },
            forall|before: Seq<B>| #[trigger]
                in_step(before, old(self).spec_blocks(), *old(table), old(self).spec_dependencies())
                    ==> in_step(
                    before,
                    final(self).spec_blocks(),
                    *final(table),
                    old(self).spec_dependencies(),
                ),
    {
        let ghost deps = self.spec_dependencies();
        let ghost blocks = self.spec_blocks();
        let action = table.poll(node_id, self.dag.get_dependencies(&node_id));
        let ghost polled_table = *table;
        proof {
            assert(table.spec_slots() =~= old(table).spec_slots().update(
                node_id as int,
                table.spec_slots()[node_id as int],
            ));
            assert forall|before: Seq<B>| #[trigger]
                in_step(before, blocks, *old(table), deps) implies in_step(
                before,
                blocks,
                polled_table,
                deps,
            ) by {
                lemma_step_waits(before, blocks, *old(table), polled_table, deps);
            }
        }
        match action {
            TaskAction::Wait(from) => TaskPoll::Pending(from),
            TaskAction::Idle => TaskPoll::Idle,
            TaskAction::Compute => {
                let next = self.calc_block(node_id, outputs);
                self.update_block(node_id, next);
                outputs.set(node_id, self.get_block_by_id(node_id).output());
                table.commit(node_id);
                proof {
                    assert(final(outputs)@ =~= outputs_of(self.spec_blocks()));
                    assert forall|before: Seq<B>| #[trigger]
                        in_step(before, blocks, *old(table), deps) implies in_step(
                        before,
                        self.spec_blocks(),
                        *table,
                        deps,
                    ) by {
                        lemma_step_commits(before, blocks, polled_table, *table, deps, node_id);
                    }
                }
                TaskPoll::Ready
            },
        }
    }

    /// One step: every block computes, from what its producers have committed
    /// in this step, and commits. Nothing is touched where the graph cannot
    /// be scheduled.
    pub fn exec_step(&mut self) -> (res: Result<(), DagError>)
        requires
            old(self).wf(),
        ensures
            final(self).wf(),
            final(self).spec_dependencies() == old(self).spec_dependencies(),
            match res {
                Ok(_) => settled(old(self).spec_blocks(), final(self).spec_blocks()) && !has_cycle(
                    old(self).spec_dependencies(),
                ) && sources(old(self).spec_dependencies()) != Set::<usize>::empty(),
                Err(e) => final(self).spec_blocks() == old(self).spec_blocks() && (match e {
                    DagError::NoRoots => sources(old(self).spec_dependencies()) == Set::<
                        usize,
                    >::empty(),
                    DagError::CycleDetected => sources(old(self).spec_dependencies()) != Set::<
                        usize,
                    >::empty() && has_cycle(old(self).spec_dependencies()),
                }),
            },
    {
        let (mut table, order) = match self.start_step() {
            Ok(started) => started,
            Err(e) => {
                return Err(e);
            },
        };
        let ghost before = self.spec_blocks();
        let ghost deps = self.spec_dependencies();
        let mut outputs = self.outputs();
        let n = order.len();
        let mut k: usize = 0;
        while k < n
            invariant
                k <= n,
                n == order@.len(),
                self.wf(),
                self.spec_dependencies() == deps,
                is_schedule(deps, order@),
                outputs@ == outputs_of(self.spec_blocks()),
                in_step(before, self.spec_blocks(), table, deps),
                forall|j: int| 0 <= j < k ==> table.spec_committed(#[trigger] order@[j]),
                forall|j: int|
                    k <= j < n ==> table.spec_slots()[#[trigger] order@[j] as int] == Some(
                        TaskState::Pending,
                    ),
            decreases n - k,
        {
            let node_id = order[k];
            let ghost slots = table.spec_slots();
            proof {
                assert forall|from: usize| deps[node_id as int].contains(
                    from,
                ) implies table.spec_committed(from) by {
                    let m = lemma_producer_is_earlier(deps, order@, k as int, from);
                    assert(table.spec_committed(order@[m]));
                }
            }
            let polled = self.poll_task(&mut table, &mut outputs, node_id);
            proof {
                assert(polled == TaskPoll::Ready);
                assert forall|j: int| 0 <= j < k + 1 implies table.spec_committed(
                    #[trigger] order@[j],
                ) by {
                    if j < k {
                        assert(slots[order@[j] as int] == Some(TaskState::Committed));
                    }
                }
                assert forall|j: int| k + 1 <= j < n implies table.spec_slots()[#[trigger] order@[j] as int]
                    == Some(TaskState::Pending) by {
                    assert(slots[order@[j] as int] == Some(TaskState::Pending));
                }
            }
            k += 1;
        }
        proof {
            lemma_schedule_bound(deps, order@);
            assert forall|u: usize| u < before.len() implies table.spec_committed(u) by {
                assert(order@.contains(u));
                let j = choose|j: int| 0 <= j < order@.len() && order@[j] == u;
                assert(table.spec_committed(order@[j]));
            }
            lemma_step_ends(before, self.spec_blocks(), table, deps);
        }
        Ok(())
    }

    /// Runs `steps` steps, one after another. Where the graph cannot be
    /// scheduled the first step fails, and nothing is touched.
    pub fn exec(&mut self, steps: &usize) -> (res: Result<(), DagError>)
        requires
            old(self).wf(),
        ensures
            final(self).wf(),
            final(self).spec_dependencies() == old(self).spec_dependencies(),
            match res {
                Ok(_) => runs(old(self).spec_blocks(), final(self).spec_blocks(), *steps as nat)
                    && (*steps > 0 ==> !has_cycle(old(self).spec_dependencies()) && sources(
                    old(self).spec_dependencies(),
                ) != Set::<usize>::empty()),
                Err(e) => *steps > 0 && final(self).spec_blocks() == old(self).spec_blocks()
                    && (match e {
                    DagError::NoRoots => sources(old(self).spec_dependencies()) == Set::<
                        usize,
                    >::empty(),
                    DagError::CycleDetected => sources(old(self).spec_dependencies()) != Set::<
                        usize,
                    >::empty() && has_cycle(old(self).spec_dependencies()),
                }),
            },
    {
        let ghost before = self.spec_blocks();
        let ghost deps = self.spec_dependencies();
        proof {
            lemma_run_none(before);
        }
        let mut step: usize = 0;
        while step < *steps
            invariant
                step <= *steps,
                self.wf(),
                self.spec_dependencies() == deps,
                before == old(self).spec_blocks(),
                deps == old(self).spec_dependencies(),
                runs(before, self.spec_blocks(), step as nat),
                step > 0 ==> !has_cycle(deps),
                step > 0 ==> sources(deps) != Set::<usize>::empty(),
            decreases *steps - step,
        {
            let ghost mid = self.spec_blocks();
            match self.exec_step() {
                Ok(_) => {
                    proof {
                        lemma_run_more(before, mid, self.spec_blocks(), step as nat);
                    }
                },
                Err(e) => {
                    return Err(e);
                },
            }
            step += 1;
        }
        Ok(())
    }
}

} // verus!
