use crate::block::Block;
use crate::dag::walks::is_schedule;
use crate::dag::walks::lemma_producer_is_earlier;
use crate::dag::walks::lemma_schedule_bound;
use vstd::prelude::*;

verus! {

/// The committed outputs of the blocks, node by node.
pub open spec fn outputs_of<B: Block>(blocks: Seq<B>) -> Seq<B::Value> {
    Seq::new(blocks.len(), |i: int| blocks[i].spec_output())
}

/// Every input of every block is bound to a node that the graph lists among
/// the block's dependencies.
pub open spec fn wired<B: Block>(blocks: Seq<B>, deps: Seq<Set<usize>>) -> bool {
    &&& blocks.len() == deps.len()
    &&& forall|i: int, id: usize|
        0 <= i < blocks.len() && #[trigger] blocks[i].spec_inputs().contains(id)
            ==> deps[i].contains(id)
}

/// What block `i` is after a step that leaves the model with the blocks
/// `after`: it has committed what it computes from the outputs that the step
/// leaves behind.
pub open spec fn stepped<B: Block>(before: Seq<B>, after: Seq<B>, i: int) -> B {
    before[i].spec_update(before[i].spec_calc(outputs_of(after)))
}

/// `after` is what one step makes of `before`: every block has computed from
/// the outputs that its producers committed in this very step, and has
/// committed the result.
pub open spec fn settled<B: Block>(before: Seq<B>, after: Seq<B>) -> bool {
    &&& after.len() == before.len()
    &&& forall|i: int| 0 <= i < before.len() ==> #[trigger] after[i] == stepped(before, after, i)
}

/// From each state of `trace` one step leads to the next.
pub open spec fn step_holds<B: Block>(trace: Seq<Seq<B>>, i: int) -> bool {
    settled(trace[i], trace[i + 1])
}

/// `trace` holds the states of a model before, between and after `steps`
/// steps.
pub open spec fn is_trace<B: Block>(trace: Seq<Seq<B>>, steps: nat) -> bool {
    &&& trace.len() == steps + 1
    &&& forall|i: int| 0 <= i < steps ==> #[trigger] step_holds(trace, i)
}

/// `after` is what `steps` steps make of `before`.
pub open spec fn runs<B: Block>(before: Seq<B>, after: Seq<B>, steps: nat) -> bool {
    exists|trace: Seq<Seq<B>>|
        #[trigger] is_trace(trace, steps) && trace[0] == before && trace[steps as int] == after
}

/// A step rebinds no input.
pub proof fn lemma_settled_is_wired<B: Block>(before: Seq<B>, deps: Seq<Set<usize>>, after: Seq<B>)
    requires
        wired(before, deps),
        settled(before, after),
    ensures
        wired(after, deps),
{
    assert forall|i: int, id: usize|
        0 <= i < after.len() && #[trigger] after[i].spec_inputs().contains(id) implies deps[i].contains(
        id,
    ) by {
        assert(after[i] == stepped(before, after, i));
        before[i].lemma_update_keeps_inputs(before[i].spec_calc(outputs_of(after)));
        assert(before[i].spec_inputs().contains(id));
    }
}

/// The outcome of a step is fixed by the state before it: whatever the order
/// in which the nodes of independent branches took their turns, the blocks
/// end up the same.
pub proof fn lemma_step_is_deterministic<B: Block>(
    before: Seq<B>,
    deps: Seq<Set<usize>>,
    order: Seq<usize>,
    one: Seq<B>,
    other: Seq<B>,
)
    requires
        wired(before, deps),
        is_schedule(deps, order),
        settled(before, one),
        settled(before, other),
    ensures
        one == other,
{
    lemma_schedule_bound(deps, order);
    lemma_agree_upto(before, deps, order, one, other, order.len() as int);
    assert forall|i: int| 0 <= i < one.len() implies one[i] == other[i] by {
        let u = i as usize;
        assert(order.contains(u));
        let j = choose|j: int| 0 <= j < order.len() && order[j] == u;
        assert(one[order[j] as int] == other[order[j] as int]);
    }
    assert(one =~= other);
}

/// Two outcomes of one step agree on the first `k` nodes of a schedule.
proof fn lemma_agree_upto<B: Block>(
    before: Seq<B>,
    deps: Seq<Set<usize>>,
    order: Seq<usize>,
    one: Seq<B>,
    other: Seq<B>,
    k: int,
)
    requires
        wired(before, deps),
        is_schedule(deps, order),
        settled(before, one),
        settled(before, other),
        0 <= k <= order.len(),
    ensures
        forall|j: int| 0 <= j < k ==> one[#[trigger] order[j] as int] == other[order[j] as int],
    decreases k,
{
    if k > 0 {
        lemma_agree_upto(before, deps, order, one, other, k - 1);
        let w = order[k - 1];
        assert forall|id: usize|
            before[w as int].spec_inputs().contains(id) && id < outputs_of(one).len() implies outputs_of(
            one,
        )[id as int] == outputs_of(other)[id as int] by {
            let m = lemma_producer_is_earlier(deps, order, k - 1, id);
            assert(one[order[m] as int] == other[order[m] as int]);
        }
        before[w as int].lemma_calc_is_local(outputs_of(one), outputs_of(other));
        assert(one[w as int] == stepped(before, one, w as int));
        assert(other[w as int] == stepped(before, other, w as int));
    }
}

/// No step has no effect.
pub proof fn lemma_run_none<B: Block>(blocks: Seq<B>)
    ensures
        runs(blocks, blocks, 0),
{
    let trace = seq![blocks];
    assert(is_trace(trace, 0));
}

/// One more step after `steps` steps makes `steps + 1` steps.
pub proof fn lemma_run_more<B: Block>(before: Seq<B>, mid: Seq<B>, after: Seq<B>, steps: nat)
    requires
        runs(before, mid, steps),
        settled(mid, after),
    ensures
        runs(before, after, steps + 1),
{
    let trace = choose|trace: Seq<Seq<B>>|
        #[trigger] is_trace(trace, steps) && trace[0] == before && trace[steps as int] == mid;
    let longer = trace.push(after);
    assert forall|i: int| 0 <= i < steps + 1 implies #[trigger] step_holds(longer, i) by {
        if i < steps {
            assert(step_holds(trace, i));
        }
    }
    assert(is_trace(longer, steps + 1));
}

/// Two traces of one model agree state by state.
proof fn lemma_traces_agree<B: Block>(
    deps: Seq<Set<usize>>,
    order: Seq<usize>,
    one: Seq<Seq<B>>,
    other: Seq<Seq<B>>,
    steps: nat,
    i: int,
)
    requires
        is_schedule(deps, order),
        is_trace(one, steps),
        is_trace(other, steps),
        one[0] == other[0],
        wired(one[0], deps),
        0 <= i <= steps,
    ensures
        one[i] == other[i],
        wired(one[i], deps),
    decreases i,
{
    if i > 0 {
        lemma_traces_agree(deps, order, one, other, steps, i - 1);
        assert(step_holds(one, i - 1));
        assert(step_holds(other, i - 1));
        lemma_step_is_deterministic(one[i - 1], deps, order, one[i], other[i]);
        lemma_settled_is_wired(one[i - 1], deps, one[i]);
    }
}

/// The outcome of any number of steps is fixed by the state before them.
pub proof fn lemma_run_is_deterministic<B: Block>(
    before: Seq<B>,
    deps: Seq<Set<usize>>,
    order: Seq<usize>,
    one: Seq<B>,
    other: Seq<B>,
    steps: nat,
)
    requires
        wired(before, deps),
        is_schedule(deps, order),
        runs(before, one, steps),
        runs(before, other, steps),
    ensures
        one == other,
        wired(one, deps),
{
    let a = choose|trace: Seq<Seq<B>>|
        #[trigger] is_trace(trace, steps) && trace[0] == before && trace[steps as int] == one;
    let b = choose|trace: Seq<Seq<B>>|
        #[trigger] is_trace(trace, steps) && trace[0] == before && trace[steps as int] == other;
    lemma_traces_agree(deps, order, a, b, steps, steps as int);
}

/// The blocks of `part` read from blocks of `part` only.
pub open spec fn self_contained<B: Block>(blocks: Seq<B>, part: Set<usize>) -> bool {
    forall|u: usize, id: usize|
        part.contains(u) && u < blocks.len() && #[trigger] blocks[u as int].spec_inputs().contains(
            id,
        ) ==> part.contains(id)
}

/// Two models of one size hold the same blocks in the nodes of `part`.
pub open spec fn agree_on<B: Block>(one: Seq<B>, other: Seq<B>, part: Set<usize>) -> bool {
    &&& one.len() == other.len()
    &&& forall|u: usize| #[trigger] part.contains(u) && u < one.len() ==> one[u as int] == other[u as int]
}

/// After a step two models agree on the first `k` nodes of a schedule, as
/// far as these nodes belong to a part that reads from itself only and on
/// which the models agreed before.
proof fn lemma_part_agrees_upto<B: Block>(
    one_before: Seq<B>,
    deps: Seq<Set<usize>>,
    order: Seq<usize>,
    one_after: Seq<B>,
    other_before: Seq<B>,
    other_after: Seq<B>,
    part: Set<usize>,
    k: int,
)
    requires
        wired(one_before, deps),
        is_schedule(deps, order),
        settled(one_before, one_after),
        settled(other_before, other_after),
        self_contained(one_before, part),
        agree_on(one_before, other_before, part),
        0 <= k <= order.len(),
    ensures
        forall|j: int|
            0 <= j < k && part.contains(#[trigger] order[j]) ==> one_after[order[j] as int]
                == other_after[order[j] as int],
    decreases k,
{
    if k > 0 {
        lemma_part_agrees_upto(
            one_before,
            deps,
            order,
            one_after,
            other_before,
            other_after,
            part,
            k - 1,
        );
        let w = order[k - 1];
        if part.contains(w) {
            assert forall|id: usize|
                one_before[w as int].spec_inputs().contains(id) && id < outputs_of(
                    one_after,
                ).len() implies outputs_of(one_after)[id as int] == outputs_of(
                other_after,
            )[id as int] by {
                let m = lemma_producer_is_earlier(deps, order, k - 1, id);
                assert(part.contains(order[m]));
            }
            one_before[w as int].lemma_calc_is_local(outputs_of(one_after), outputs_of(other_after));
            assert(one_after[w as int] == stepped(one_before, one_after, w as int));
            assert(other_after[w as int] == stepped(other_before, other_after, w as int));
        }
    }
}

/// A part of a model that reads from itself only settles as it does beside
/// any other rest: two models that agree on the part before a step agree on
/// it after the step, whatever the blocks outside the part are and whatever
/// they are bound to.
pub proof fn lemma_part_is_independent<B: Block>(
    one_before: Seq<B>,
    deps: Seq<Set<usize>>,
    order: Seq<usize>,
    one_after: Seq<B>,
    other_before: Seq<B>,
    other_after: Seq<B>,
    part: Set<usize>,
)
    requires
        wired(one_before, deps),
        is_schedule(deps, order),
        settled(one_before, one_after),
        settled(other_before, other_after),
        self_contained(one_before, part),
        agree_on(one_before, other_before, part),
    ensures
        agree_on(one_after, other_after, part),
        self_contained(one_after, part),
{
    lemma_part_agrees_upto(
        one_before,
        deps,
        order,
        one_after,
        other_before,
        other_after,
        part,
        order.len() as int,
    );
    assert forall|u: usize| #[trigger] part.contains(u) && u < one_after.len() implies one_after[u as int]
        == other_after[u as int] by {
        assert(order.contains(u));
        let j = choose|j: int| 0 <= j < order.len() && order[j] == u;
        assert(part.contains(order[j]));
    }
    assert forall|u: usize, id: usize|
        part.contains(u) && u < one_after.len() && #[trigger] one_after[u as int].spec_inputs().contains(
            id,
        ) implies part.contains(id) by {
        assert(one_after[u as int] == stepped(one_before, one_after, u as int));
        one_before[u as int].lemma_update_keeps_inputs(
            one_before[u as int].spec_calc(outputs_of(one_after)),
        );
        assert(one_before[u as int].spec_inputs().contains(id));
    }
}

/// Two traces agree, state by state, on a part that reads from itself only.
proof fn lemma_part_traces_agree<B: Block>(
    deps: Seq<Set<usize>>,
    order: Seq<usize>,
    one: Seq<Seq<B>>,
    other: Seq<Seq<B>>,
    part: Set<usize>,
    steps: nat,
    i: int,
)
    requires
        is_schedule(deps, order),
        is_trace(one, steps),
        is_trace(other, steps),
        wired(one[0], deps),
        self_contained(one[0], part),
        agree_on(one[0], other[0], part),
        0 <= i <= steps,
    ensures
        wired(one[i], deps),
        self_contained(one[i], part),
        agree_on(one[i], other[i], part),
    decreases i,
{
    if i > 0 {
        lemma_part_traces_agree(deps, order, one, other, part, steps, i - 1);
        assert(step_holds(one, i - 1));
        assert(step_holds(other, i - 1));
        lemma_settled_is_wired(one[i - 1], deps, one[i]);
        lemma_part_is_independent(one[i - 1], deps, order, one[i], other[i - 1], other[i], part);
    }
}

/// What holds of one step holds of any number of steps: a part that reads
/// from itself only ends up the same beside any other rest.
pub proof fn lemma_part_runs_independent<B: Block>(
    one_before: Seq<B>,
    deps: Seq<Set<usize>>,
    order: Seq<usize>,
    one_after: Seq<B>,
    other_before: Seq<B>,
    other_after: Seq<B>,
    part: Set<usize>,
    steps: nat,
)
    requires
        wired(one_before, deps),
        is_schedule(deps, order),
        runs(one_before, one_after, steps),
        runs(other_before, other_after, steps),
        self_contained(one_before, part),
        agree_on(one_before, other_before, part),
    ensures
        agree_on(one_after, other_after, part),
{
    let a = choose|trace: Seq<Seq<B>>|
        #[trigger] is_trace(trace, steps) && trace[0] == one_before && trace[steps as int]
            == one_after;
    let b = choose|trace: Seq<Seq<B>>|
        #[trigger] is_trace(trace, steps) && trace[0] == other_before && trace[steps as int]
            == other_after;
    lemma_part_traces_agree(deps, order, a, b, part, steps, steps as int);
}

} // verus!
