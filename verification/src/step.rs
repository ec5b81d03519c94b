use crate::block::Block;
use crate::dag::walks::is_schedule;
use crate::dag::walks::lemma_producer_is_earlier;
use crate::settle::outputs_of;
use crate::settle::settled;
use crate::settle::stepped;
use crate::settle::wired;
use crate::task::TaskState;
use crate::task::TaskTable;
use vstd::prelude::*;

verus! {

/// What the block of node `u` has to be in the middle of a step: settled if
/// its task has committed, untouched if not.
pub open spec fn at_slot<B: Block>(before: Seq<B>, blocks: Seq<B>, table: TaskTable, u: usize) -> B {
    if table.spec_committed(u) {
        stepped(before, blocks, u as int)
    } else {
        before[u as int]
    }
}

/// The state of a model in the middle of a step that began with the blocks
/// `before`: no block computes before all that it depends on have committed,
/// the blocks whose tasks have committed have settled, and no other block was
/// touched.
pub open spec fn in_step<B: Block>(
    before: Seq<B>,
    blocks: Seq<B>,
    table: TaskTable,
    deps: Seq<Set<usize>>,
) -> bool {
    &&& wired(before, deps)
    &&& blocks.len() == before.len()
    &&& table.spec_len() == before.len()
    &&& table.respects(deps)
    &&& forall|u: usize|
        u < before.len() ==> blocks[u as int] == #[trigger] at_slot(before, blocks, table, u)
}

/// A step begins with no task that computes or has committed.
pub proof fn lemma_step_begins<B: Block>(before: Seq<B>, table: TaskTable, deps: Seq<Set<usize>>)
    requires
        wired(before, deps),
        table.spec_len() == before.len(),
        forall|u: usize| !table.spec_released(u),
    ensures
        in_step(before, before, table, deps),
{
    assert forall|u: usize| u < before.len() implies before[u as int] == #[trigger] at_slot(
        before,
        before,
        table,
        u,
    ) by {
        assert(!table.spec_released(u));
    }
}

/// A move of the table that commits nothing leaves the step where it is.
pub proof fn lemma_step_waits<B: Block>(
    before: Seq<B>,
    blocks: Seq<B>,
    table: TaskTable,
    later: TaskTable,
    deps: Seq<Set<usize>>,
)
    requires
        in_step(before, blocks, table, deps),
        later.spec_len() == table.spec_len(),
        later.respects(deps),
        forall|u: usize| later.spec_committed(u) == table.spec_committed(u),
    ensures
        in_step(before, blocks, later, deps),
{
    assert forall|u: usize| u < before.len() implies blocks[u as int] == #[trigger] at_slot(
        before,
        blocks,
        later,
        u,
    ) by {
        assert(blocks[u as int] == at_slot(before, blocks, table, u));
    }
}

/// The node `w` feeds no block whose task computes or has committed, as
/// long as its own task has not committed.
proof fn lemma_open_node_feeds_none<B: Block>(
    before: Seq<B>,
    table: TaskTable,
    deps: Seq<Set<usize>>,
    u: usize,
    w: usize,
)
    requires
        wired(before, deps),
        table.spec_len() == before.len(),
        table.respects(deps),
        table.spec_released(u),
        !table.spec_committed(w),
    ensures
        !before[u as int].spec_inputs().contains(w),
{
    if before[u as int].spec_inputs().contains(w) {
        assert(deps[u as int].contains(w));
    }
}

/// The block whose task computes commits what it computes from the
/// committed outputs: one more block has settled.
pub proof fn lemma_step_commits<B: Block>(
    before: Seq<B>,
    blocks: Seq<B>,
    table: TaskTable,
    later: TaskTable,
    deps: Seq<Set<usize>>,
    w: usize,
)
    requires
        in_step(before, blocks, table, deps),
        w < before.len(),
        table.spec_slots()[w as int] == Some(TaskState::Computing),
        later.spec_slots() == table.spec_slots().update(w as int, Some(TaskState::Committed)),
    ensures
        blocks[w as int] == before[w as int],
        in_step(before, blocks.update(w as int, stepped(before, blocks, w as int)), later, deps),
{
    let next = blocks.update(w as int, stepped(before, blocks, w as int));
    assert(blocks[w as int] == at_slot(before, blocks, table, w));
    assert forall|n: usize, from: usize|
        #![trigger later.spec_released(n), deps[n as int].contains(from)]
        later.spec_released(n) && n < deps.len() && deps[n as int].contains(
            from,
        ) implies later.spec_committed(from) by {
        assert(table.spec_released(n));
        assert(table.spec_committed(from));
    }
    assert forall|u: usize| u < before.len() implies next[u as int] == #[trigger] at_slot(
        before,
        next,
        later,
        u,
    ) by {
        assert(blocks[u as int] == at_slot(before, blocks, table, u));
        if later.spec_committed(u) {
            assert(table.spec_released(u));
            lemma_open_node_feeds_none(before, table, deps, u, w);
            assert forall|id: usize|
                before[u as int].spec_inputs().contains(id) && id < outputs_of(
                    blocks,
                ).len() implies outputs_of(blocks)[id as int] == outputs_of(next)[id as int] by {}
            before[u as int].lemma_calc_is_local(outputs_of(blocks), outputs_of(next));
        }
    }
}

/// Once every task has committed, the step is complete.
pub proof fn lemma_step_ends<B: Block>(
    before: Seq<B>,
    blocks: Seq<B>,
    table: TaskTable,
    deps: Seq<Set<usize>>,
)
    requires
        in_step(before, blocks, table, deps),
        before.len() <= usize::MAX + 1,
        forall|u: usize| u < before.len() ==> table.spec_committed(u),
    ensures
        settled(before, blocks),
{
    assert forall|i: int| 0 <= i < before.len() implies #[trigger] blocks[i] == stepped(
        before,
        blocks,
        i,
    ) by {
        let u = i as usize;
        assert(blocks[u as int] == at_slot(before, blocks, table, u));
    }
}

/// Two courses of one step agree on the first `k` nodes of a schedule, as far
/// as the tasks of these nodes have committed in both.
proof fn lemma_courses_agree_upto<B: Block>(
    before: Seq<B>,
    deps: Seq<Set<usize>>,
    order: Seq<usize>,
    one: Seq<B>,
    one_table: TaskTable,
    other: Seq<B>,
    other_table: TaskTable,
    k: int,
)
    requires
        is_schedule(deps, order),
        in_step(before, one, one_table, deps),
        in_step(before, other, other_table, deps),
        0 <= k <= order.len(),
    ensures
        forall|j: int|
            0 <= j < k && one_table.spec_committed(#[trigger] order[j]) && other_table.spec_committed(
                order[j],
            ) ==> one[order[j] as int] == other[order[j] as int],
    decreases k,
{
    if k > 0 {
        lemma_courses_agree_upto(before, deps, order, one, one_table, other, other_table, k - 1);
        let w = order[k - 1];
        if one_table.spec_committed(w) && other_table.spec_committed(w) {
            assert(one_table.spec_released(w));
            assert(other_table.spec_released(w));
            assert forall|id: usize|
                before[w as int].spec_inputs().contains(id) && id < outputs_of(
                    one,
                ).len() implies outputs_of(one)[id as int] == outputs_of(other)[id as int] by {
                let m = lemma_producer_is_earlier(deps, order, k - 1, id);
                assert(one_table.spec_committed(order[m]));
                assert(other_table.spec_committed(id));
            }
            before[w as int].lemma_calc_is_local(outputs_of(one), outputs_of(other));
            assert(one[w as int] == at_slot(before, one, one_table, w));
            assert(other[w as int] == at_slot(before, other, other_table, w));
        }
    }
}

/// However the tasks of a step take their turns, a block whose task has
/// committed is the same block: two courses of one step agree on every node
/// whose task has committed in both.
pub proof fn lemma_courses_agree<B: Block>(
    before: Seq<B>,
    deps: Seq<Set<usize>>,
    order: Seq<usize>,
    one: Seq<B>,
    one_table: TaskTable,
    other: Seq<B>,
    other_table: TaskTable,
    u: usize,
)
    requires
        is_schedule(deps, order),
        in_step(before, one, one_table, deps),
        in_step(before, other, other_table, deps),
        one_table.spec_committed(u),
        other_table.spec_committed(u),
    ensures
        one[u as int] == other[u as int],
{
    lemma_courses_agree_upto(
        before,
        deps,
        order,
        one,
        one_table,
        other,
        other_table,
        order.len() as int,
    );
    assert(order.contains(u));
    let j = choose|j: int| 0 <= j < order.len() && order[j] == u;
    assert(one_table.spec_committed(order[j]));
}

/// What a block computes does not depend on the moment at which its task
/// computes: once all that it depends on have committed, the outputs that it
/// reads are final.
pub proof fn lemma_calc_is_stable<B: Block>(
    before: Seq<B>,
    deps: Seq<Set<usize>>,
    order: Seq<usize>,
    one: Seq<B>,
    one_table: TaskTable,
    other: Seq<B>,
    other_table: TaskTable,
    w: usize,
)
    requires
        is_schedule(deps, order),
        in_step(before, one, one_table, deps),
        in_step(before, other, other_table, deps),
        w < before.len(),
        one_table.spec_released(w),
        other_table.spec_released(w),
    ensures
        before[w as int].spec_calc(outputs_of(one)) == before[w as int].spec_calc(
            outputs_of(other),
        ),
{
    assert forall|id: usize|
        before[w as int].spec_inputs().contains(id) && id < outputs_of(one).len() implies outputs_of(
        one,
    )[id as int] == outputs_of(other)[id as int] by {
        assert(deps[w as int].contains(id));
        assert(one_table.spec_committed(id));
        assert(other_table.spec_committed(id));
        lemma_courses_agree(before, deps, order, one, one_table, other, other_table, id);
    }
    before[w as int].lemma_calc_is_local(outputs_of(one), outputs_of(other));
}

} // verus!
