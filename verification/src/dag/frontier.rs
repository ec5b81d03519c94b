use crate::dag::sets::lemma_distinct_below;
use crate::dag::sets::lemma_distinct_without;
use crate::dag::sets::lemma_missing;
use crate::dag::sets::lemma_take_next;
use crate::dag::walks::closed_graph;
use crate::dag::walks::has_cycle;
use crate::dag::walks::inverts;
use crate::dag::walks::is_edge;
use crate::dag::walks::is_schedule;
use crate::dag::walks::is_source;
use crate::dag::walks::is_stuck;
use crate::dag::walks::lemma_stuck_has_cycle;
use crate::dag::walks::released;
use crate::dag::walks::sources;
use crate::dag::walks::without;
use vstd::prelude::*;

verus! {

/// The nodes of `done` were visited in that order, none before a node that it
/// depends on.
pub open spec fn visited_in_order(deps: Seq<Set<usize>>, done: Seq<usize>) -> bool {
    &&& done.no_duplicates()
    &&& forall|i: int| 0 <= i < done.len() ==> #[trigger] done[i] < deps.len()
    &&& forall|i: int, from: usize|
        0 <= i < done.len() && #[trigger] deps[done[i] as int].contains(from) ==> done.take(
            i,
        ).contains(from)
}

/// Each node waits for those of its dependencies that were not visited yet.
pub open spec fn waits_for_rest(
    deps: Seq<Set<usize>>,
    waiting: Seq<Set<usize>>,
    done: Seq<usize>,
) -> bool {
    &&& waiting.len() == deps.len()
    &&& forall|v: usize, u: usize|
        v < deps.len() ==> (#[trigger] waiting[v as int].contains(u) <==> deps[v as int].contains(u)
            && !done.contains(u))
}

/// The ready nodes are those that were not visited and wait for nothing.
pub open spec fn ready_are_free(waiting: Seq<Set<usize>>, ready: Set<usize>, done: Seq<usize>) -> bool {
    forall|v: usize| #[trigger]
        ready.contains(v) <==> v < waiting.len() && !done.contains(v) && is_source(waiting, v)
}

/// The state of a pass over the graph `deps`, after the visits of `done`:
/// `waiting` is what each node still waits for, `ready` the nodes to visit.
pub open spec fn draining(
    deps: Seq<Set<usize>>,
    outs: Seq<Set<usize>>,
    waiting: Seq<Set<usize>>,
    ready: Set<usize>,
    done: Seq<usize>,
) -> bool {
    &&& deps.len() <= usize::MAX
    &&& closed_graph(deps)
    &&& inverts(deps, outs)
    &&& visited_in_order(deps, done)
    &&& waits_for_rest(deps, waiting, done)
    &&& ready_are_free(waiting, ready, done)
}

/// A pass starts with all dependencies open and the sources ready.
pub proof fn lemma_drain_start(deps: Seq<Set<usize>>, outs: Seq<Set<usize>>)
    requires
        deps.len() <= usize::MAX,
        closed_graph(deps),
        inverts(deps, outs),
    ensures
        draining(deps, outs, deps, sources(deps), Seq::empty()),
{
}

/// What one more visit adds to the visited nodes.
proof fn lemma_push_contains(done: Seq<usize>, id: usize)
    ensures
        forall|u: usize| #[trigger] done.push(id).contains(u) <==> done.contains(u) || u == id,
{
    let next = done.push(id);
    assert forall|u: usize| #[trigger] next.contains(u) <==> done.contains(u) || u == id by {
        assert(next.take(done.len() as int) == done);
        assert(next.take(next.len() as int) == next);
        lemma_take_next(next, done.len() as int, u);
    }
}

/// A node that is visited before one of its dependencies is not among the
/// visited.
proof fn lemma_done_is_closed(deps: Seq<Set<usize>>, done: Seq<usize>, v: usize, from: usize)
    requires
        visited_in_order(deps, done),
        done.contains(v),
        v < deps.len(),
        deps[v as int].contains(from),
    ensures
        done.contains(from),
{
    let k = choose|k: int| 0 <= k < done.len() && done[k] == v;
    assert(deps[done[k] as int].contains(from));
    let head = done.take(k);
    assert(head.contains(from));
    let m = choose|m: int| 0 <= m < head.len() && head[m] == from;
    assert(done[m] == from);
}

/// The visit of a ready node keeps the order of the visits.
proof fn lemma_step_order(
    deps: Seq<Set<usize>>,
    outs: Seq<Set<usize>>,
    waiting: Seq<Set<usize>>,
    ready: Set<usize>,
    done: Seq<usize>,
    id: usize,
)
    requires
        draining(deps, outs, waiting, ready, done),
        ready.contains(id),
    ensures
        visited_in_order(deps, done.push(id)),
{
    let next = done.push(id);
    lemma_push_contains(done, id);
    assert forall|i: int, from: usize|
        0 <= i < next.len() && #[trigger] deps[next[i] as int].contains(from) implies next.take(
        i,
    ).contains(from) by {
        if i < done.len() {
            assert(next.take(i) == done.take(i));
            assert(deps[done[i] as int].contains(from));
        } else {
            assert(next.take(i) == done);
            assert(waiting[id as int].contains(from) <==> deps[id as int].contains(from)
                && !done.contains(from));
        }
    }
}

/// The visit of a ready node leaves each node waiting for the rest.
proof fn lemma_step_waiting(
    deps: Seq<Set<usize>>,
    waiting: Seq<Set<usize>>,
    done: Seq<usize>,
    id: usize,
)
    requires
        waits_for_rest(deps, waiting, done),
    ensures
        waits_for_rest(deps, without(waiting, id), done.push(id)),
{
    let after = without(waiting, id);
    lemma_push_contains(done, id);
    assert forall|v: usize, u: usize| v < deps.len() implies (#[trigger] after[v as int].contains(u)
        <==> deps[v as int].contains(u) && !done.push(id).contains(u)) by {
        assert(waiting[v as int].contains(u) <==> deps[v as int].contains(u) && !done.contains(u));
    }
}

/// After the visit of a ready node the ready nodes are again those that were
/// not visited and wait for nothing.
proof fn lemma_step_ready(
    deps: Seq<Set<usize>>,
    outs: Seq<Set<usize>>,
    waiting: Seq<Set<usize>>,
    ready: Set<usize>,
    done: Seq<usize>,
    id: usize,
)
    requires
        draining(deps, outs, waiting, ready, done),
        ready.contains(id),
    ensures
        ready_are_free(
            without(waiting, id),
            ready.remove(id).union(released(outs, without(waiting, id), id)),
            done.push(id),
        ),
{
    let after = without(waiting, id);
    let freed = released(outs, after, id);
    let next = ready.remove(id).union(freed);
    lemma_push_contains(done, id);
    assert forall|v: usize| #[trigger]
        next.contains(v) <==> v < after.len() && !done.push(id).contains(v) && is_source(
            after,
            v,
        ) by {
        assert(ready.contains(v) <==> v < waiting.len() && !done.contains(v) && is_source(
            waiting,
            v,
        ));
        if v < after.len() {
            assert(after[v as int] == waiting[v as int].remove(id));
        }
        if freed.contains(v) {
            assert(outs[id as int].contains(v));
            assert(v < deps.len());
            assert(deps[v as int].contains(id));
            assert(waiting[id as int].contains(id) <==> deps[id as int].contains(id)
                && !done.contains(id));
            assert(v != id);
            if done.contains(v) {
                lemma_done_is_closed(deps, done, v, id);
            }
        }
        if v < after.len() && !done.push(id).contains(v) && is_source(after, v) && !is_source(
            waiting,
            v,
        ) {
            let x = choose|x: usize| waiting[v as int].contains(x);
            assert(waiting[v as int].contains(x));
            assert(after[v as int].contains(x) || x == id);
            assert(waiting[v as int].contains(id) <==> deps[v as int].contains(id)
                && !done.contains(id));
            assert(outs[id as int].contains(v));
        }
        if ready.contains(v) && v != id {
            assert(is_source(after, v));
        }
    }
}

/// The visit of a ready node takes the pass to its next state.
pub proof fn lemma_drain_step(
    deps: Seq<Set<usize>>,
    outs: Seq<Set<usize>>,
    waiting: Seq<Set<usize>>,
    ready: Set<usize>,
    done: Seq<usize>,
    id: usize,
)
    requires
        draining(deps, outs, waiting, ready, done),
        ready.contains(id),
    ensures
        done.len() < deps.len(),
        draining(
            deps,
            outs,
            without(waiting, id),
            ready.remove(id).union(released(outs, without(waiting, id), id)),
            done.push(id),
        ),
{
    lemma_distinct_without(done, deps.len(), id);
    lemma_push_contains(done, id);
    lemma_step_order(deps, outs, waiting, ready, done, id);
    lemma_step_waiting(deps, waiting, done, id);
    lemma_step_ready(deps, outs, waiting, ready, done, id);
}

/// The nodes of the graph that were not visited.
pub open spec fn unvisited(deps: Seq<Set<usize>>, done: Seq<usize>) -> Set<usize> {
    Set::new(|w: usize| w < deps.len() && !done.contains(w))
}

/// Where no node is ready, every node that was not visited waits for another
/// such node.
proof fn lemma_rest_is_stuck(
    deps: Seq<Set<usize>>,
    waiting: Seq<Set<usize>>,
    ready: Set<usize>,
    done: Seq<usize>,
)
    requires
        closed_graph(deps),
        waits_for_rest(deps, waiting, done),
        ready_are_free(waiting, ready, done),
        ready == Set::<usize>::empty(),
    ensures
        is_stuck(deps, unvisited(deps, done)),
{
    let stuck = unvisited(deps, done);
    assert forall|w: usize| #[trigger] stuck.contains(w) implies w < deps.len() && exists|u: usize|
        stuck.contains(u) && #[trigger] is_edge(deps, u, w) by {
        assert(!ready.contains(w));
        assert(!is_source(waiting, w));
        let u = choose|u: usize| waiting[w as int].contains(u);
        assert(waiting[w as int].contains(u));
        assert(deps[w as int].contains(u));
        assert(stuck.contains(u) && is_edge(deps, u, w));
    }
}

/// Distinct nodes, as many as the graph has, are all its nodes.
proof fn lemma_all_visited(deps: Seq<Set<usize>>, done: Seq<usize>)
    requires
        deps.len() <= usize::MAX,
        done.no_duplicates(),
        forall|i: int| 0 <= i < done.len() ==> #[trigger] done[i] < deps.len(),
        done.len() >= deps.len(),
    ensures
        done.len() == deps.len(),
        forall|u: usize| u < deps.len() ==> #[trigger] done.contains(u),
{
    lemma_distinct_below(done, deps.len());
    assert forall|u: usize| u < deps.len() implies #[trigger] done.contains(u) by {
        if !done.contains(u) {
            lemma_distinct_without(done, deps.len(), u);
        }
    }
}

/// On a graph without cycles a pass that has no ready node left has visited
/// every node.
pub proof fn lemma_drain_end(
    deps: Seq<Set<usize>>,
    outs: Seq<Set<usize>>,
    waiting: Seq<Set<usize>>,
    ready: Set<usize>,
    done: Seq<usize>,
)
    requires
        draining(deps, outs, waiting, ready, done),
        ready == Set::<usize>::empty(),
        !has_cycle(deps),
    ensures
        is_schedule(deps, done),
{
    if done.len() < deps.len() {
        let v = lemma_missing(done, deps.len());
        lemma_rest_is_stuck(deps, waiting, ready, done);
        assert(unvisited(deps, done).contains(v));
        lemma_stuck_has_cycle(deps, unvisited(deps, done), v);
    }
    lemma_all_visited(deps, done);
}

} // verus!
