use crate::dag::sets::lemma_distinct_below;
use vstd::prelude::*;

verus! {

/// `deps[to]` holds the producers that node `to` depends on: there is an edge
/// from `from` to `to` when `from` is one of them.
pub open spec fn is_edge(deps: Seq<Set<usize>>, from: usize, to: usize) -> bool {
    to < deps.len() && deps[to as int].contains(from)
}

/// The step from position `i` of `p` to the next position follows an edge.
pub open spec fn step_ok(deps: Seq<Set<usize>>, p: Seq<usize>, i: int) -> bool {
    is_edge(deps, p[i], p[i + 1])
}

/// `p` is a non-empty sequence of nodes, each joined to the next by an edge.
pub open spec fn is_walk(deps: Seq<Set<usize>>, p: Seq<usize>) -> bool {
    &&& p.len() >= 1
    &&& forall|i: int| 0 <= i < p.len() - 1 ==> #[trigger] step_ok(deps, p, i)
}

/// `p` is a walk of at least one edge that ends where it starts.
pub open spec fn is_cycle(deps: Seq<Set<usize>>, p: Seq<usize>) -> bool {
    &&& is_walk(deps, p)
    &&& p.len() >= 2
    &&& p[0] == p[p.len() - 1]
}

/// Some cycle runs along the edges of `deps`.
pub open spec fn has_cycle(deps: Seq<Set<usize>>) -> bool {
    exists|p: Seq<usize>| is_cycle(deps, p)
}

/// Every producer named in `deps` is itself a node of the graph.
pub open spec fn closed_graph(deps: Seq<Set<usize>>) -> bool {
    forall|to: int, from: usize|
        0 <= to < deps.len() && #[trigger] deps[to].contains(from) ==> from < deps.len()
}

/// The node has no producer.
pub open spec fn is_source(deps: Seq<Set<usize>>, node: usize) -> bool {
    node < deps.len() && deps[node as int] =~= Set::<usize>::empty()
}

/// The nodes without producers.
pub open spec fn sources(deps: Seq<Set<usize>>) -> Set<usize> {
    Set::new(|node: usize| is_source(deps, node))
}

/// `outs` holds the consumers of each node: the edges of `deps`, read from the
/// producer's side.
pub open spec fn inverts(deps: Seq<Set<usize>>, outs: Seq<Set<usize>>) -> bool {
    &&& outs.len() == deps.len()
    &&& closed_graph(outs)
    &&& forall|from: usize, to: usize|
        #![trigger outs[from as int].contains(to)]
        #![trigger deps[to as int].contains(from)]
        from < deps.len() && to < deps.len() ==> (outs[from as int].contains(to)
            <==> deps[to as int].contains(from))
}

/// No cycle passes through a node of `done`.
pub open spec fn clear_of_cycles(deps: Seq<Set<usize>>, done: Set<usize>) -> bool {
    forall|p: Seq<usize>, i: int|
        is_cycle(deps, p) && 0 <= i < p.len() ==> !done.contains(#[trigger] p[i])
}

/// Whatever a node of `done` feeds is in `done` too. `outs` holds the
/// consumers of each node.
pub open spec fn sealed(outs: Seq<Set<usize>>, done: Set<usize>) -> bool {
    forall|u: usize, w: usize|
        done.contains(u) && u < outs.len() && #[trigger] outs[u as int].contains(w)
            ==> done.contains(w)
}

/// Some walk leads from `from` to `to`; every node reaches itself.
pub open spec fn reaches(deps: Seq<Set<usize>>, from: usize, to: usize) -> bool {
    exists|w: Seq<usize>| #[trigger] is_walk(deps, w) && w[0] == from && w[w.len() - 1] == to
}

/// Some node that `from` reaches lies on a cycle.
pub open spec fn cycle_below(deps: Seq<Set<usize>>, from: usize) -> bool {
    exists|p: Seq<usize>| #[trigger] is_cycle(deps, p) && reaches(deps, from, p[0])
}

/// Every ready node is a node of the graph.
pub open spec fn within(ready: Set<usize>, n: nat) -> bool {
    forall|r: usize| #[trigger] ready.contains(r) ==> r < n
}

/// Whoever waits for a node is listed among its consumers.
pub open spec fn listed(deps: Seq<Set<usize>>, outs: Seq<Set<usize>>) -> bool {
    forall|from: usize, to: usize| #[trigger]
        is_edge(deps, from, to) ==> outs[from as int].contains(to)
}

/// The graph after one more edge from `from` to `to`.
pub open spec fn connected(deps: Seq<Set<usize>>, from: usize, to: usize) -> Seq<Set<usize>> {
    deps.update(to as int, deps[to as int].insert(from))
}

/// The dependency sets after `node` has left each of them.
pub open spec fn without(deps: Seq<Set<usize>>, node: usize) -> Seq<Set<usize>> {
    Seq::new(deps.len(), |v: int| deps[v].remove(node))
}

/// The consumers of `node` that depend on nothing any more.
pub open spec fn released(outs: Seq<Set<usize>>, deps: Seq<Set<usize>>, node: usize) -> Set<
    usize,
> {
    Set::new(|v: usize| outs[node as int].contains(v) && is_source(deps, v))
}

/// `order` lists every node of the graph once, and none before a node that it
/// depends on.
pub open spec fn is_schedule(deps: Seq<Set<usize>>, order: Seq<usize>) -> bool {
    &&& order.no_duplicates()
    &&& order.len() == deps.len()
    &&& forall|u: usize| u < deps.len() ==> #[trigger] order.contains(u)
    &&& forall|i: int| 0 <= i < order.len() ==> #[trigger] order[i] < deps.len()
    &&& forall|i: int, from: usize|
        0 <= i < order.len() && #[trigger] deps[order[i] as int].contains(from) ==> order.take(
            i,
        ).contains(from)
}

/// In a schedule a producer stands before its consumer.
pub proof fn lemma_producer_is_earlier(
    deps: Seq<Set<usize>>,
    order: Seq<usize>,
    k: int,
    from: usize,
) -> (m: int)
    requires
        is_schedule(deps, order),
        0 <= k < order.len(),
        deps[order[k] as int].contains(from),
    ensures
        0 <= m < k,
        order[m] == from,
{
    let head = order.take(k);
    assert(head.contains(from));
    choose|m: int| 0 <= m < head.len() && head[m] == from
}

/// A graph with a schedule has no more nodes than there are identifiers.
pub proof fn lemma_schedule_bound(deps: Seq<Set<usize>>, order: Seq<usize>)
    requires
        is_schedule(deps, order),
    ensures
        deps.len() <= usize::MAX + 1,
{
    lemma_distinct_below(order, (usize::MAX + 1) as nat);
}

/// Every node on a cycle is a node of the graph.
pub proof fn lemma_cycle_in_range(deps: Seq<Set<usize>>, p: Seq<usize>, i: int)
    requires
        is_cycle(deps, p),
        0 <= i < p.len(),
    ensures
        p[i] < deps.len(),
{
    if i == 0 {
        assert(step_ok(deps, p, p.len() - 2));
    } else {
        assert(step_ok(deps, p, i - 1));
    }
}

/// Ready nodes stay nodes of the graph where every new one is such a node.
pub proof fn lemma_within_kept(before: Set<usize>, after: Set<usize>, n: nat)
    requires
        within(before, n),
        forall|r: usize| #[trigger] after.contains(r) ==> before.contains(r) || r < n,
    ensures
        within(after, n),
{
}

/// The edges stay listed among the consumers where every new edge is listed,
/// and no consumer is struck off.
pub proof fn lemma_listed_kept(
    deps: Seq<Set<usize>>,
    outs: Seq<Set<usize>>,
    new_deps: Seq<Set<usize>>,
    new_outs: Seq<Set<usize>>,
)
    requires
        closed_graph(deps),
        outs.len() == deps.len(),
        listed(deps, outs),
        forall|from: usize, to: usize| #[trigger]
            is_edge(new_deps, from, to) ==> is_edge(deps, from, to) || new_outs[from as int].contains(
                to,
            ),
        forall|from: usize, to: usize|
            from < outs.len() && #[trigger] outs[from as int].contains(to)
                ==> new_outs[from as int].contains(to),
    ensures
        listed(new_deps, new_outs),
{
    assert forall|from: usize, to: usize| #[trigger]
        is_edge(new_deps, from, to) implies new_outs[from as int].contains(to) by {
        if is_edge(deps, from, to) {
            assert(deps[to as int].contains(from));
            assert(outs[from as int].contains(to));
        }
    }
}

/// A cycle below a node is a cycle of the graph.
pub proof fn lemma_cycle_below_is_cycle(deps: Seq<Set<usize>>, from: usize)
    requires
        cycle_below(deps, from),
    ensures
        has_cycle(deps),
{
    let p = choose|p: Seq<usize>| #[trigger] is_cycle(deps, p) && reaches(deps, from, p[0]);
    assert(is_cycle(deps, p));
}

/// What a consumer reaches, its producer reaches.
pub proof fn lemma_reach_through(deps: Seq<Set<usize>>, from: usize, mid: usize, to: usize)
    requires
        is_edge(deps, from, mid),
        reaches(deps, mid, to),
    ensures
        reaches(deps, from, to),
{
    let w = choose|w: Seq<usize>| #[trigger] is_walk(deps, w) && w[0] == mid && w[w.len() - 1] == to;
    let longer = seq![from] + w;
    assert forall|i: int| 0 <= i < longer.len() - 1 implies #[trigger] step_ok(deps, longer, i) by {
        if i > 0 {
            assert(step_ok(deps, w, i - 1));
        }
    }
    assert(is_walk(deps, longer) && longer[0] == from && longer[longer.len() - 1] == to);
}

/// A cycle below a consumer is a cycle below its producer.
pub proof fn lemma_cycle_below_consumer(deps: Seq<Set<usize>>, from: usize, mid: usize)
    requires
        is_edge(deps, from, mid),
        cycle_below(deps, mid),
    ensures
        cycle_below(deps, from),
{
    let p = choose|p: Seq<usize>| #[trigger] is_cycle(deps, p) && reaches(deps, mid, p[0]);
    lemma_reach_through(deps, from, mid, p[0]);
    assert(is_cycle(deps, p) && reaches(deps, from, p[0]));
}

/// A walk whose last node has an edge back to one of its own nodes closes a
/// cycle that this last node reaches.
pub proof fn lemma_back_edge_is_below(deps: Seq<Set<usize>>, walk: Seq<usize>, k: int)
    requires
        is_walk(deps, walk),
        0 <= k < walk.len(),
        is_edge(deps, walk[walk.len() - 1], walk[k]),
    ensures
        cycle_below(deps, walk[walk.len() - 1]),
{
    let last = walk[walk.len() - 1];
    let p = walk.subrange(k, walk.len() as int).push(walk[k]);
    assert forall|i: int| 0 <= i < p.len() - 1 implies #[trigger] step_ok(deps, p, i) by {
        if i < p.len() - 2 {
            assert(step_ok(deps, walk, k + i));
        }
    }
    assert(is_cycle(deps, p));
    let hop = seq![last, walk[k]];
    assert forall|i: int| 0 <= i < hop.len() - 1 implies #[trigger] step_ok(deps, hop, i) by {}
    assert(is_walk(deps, hop) && hop[0] == last && hop[hop.len() - 1] == p[0]);
    assert(is_cycle(deps, p) && reaches(deps, last, p[0]));
}

/// A sealed set holds whatever its nodes reach.
pub proof fn lemma_sealed_holds_reach(
    deps: Seq<Set<usize>>,
    outs: Seq<Set<usize>>,
    done: Set<usize>,
    from: usize,
    to: usize,
)
    requires
        closed_graph(deps),
        inverts(deps, outs),
        sealed(outs, done),
        done.contains(from),
        reaches(deps, from, to),
    ensures
        done.contains(to),
{
    let w = choose|w: Seq<usize>| #[trigger] is_walk(deps, w) && w[0] == from && w[w.len() - 1] == to;
    lemma_sealed_holds_walk(deps, outs, done, w, w.len() - 1);
}

/// A sealed set that holds the first node of a walk holds all of them.
proof fn lemma_sealed_holds_walk(
    deps: Seq<Set<usize>>,
    outs: Seq<Set<usize>>,
    done: Set<usize>,
    w: Seq<usize>,
    i: int,
)
    requires
        closed_graph(deps),
        inverts(deps, outs),
        sealed(outs, done),
        is_walk(deps, w),
        done.contains(w[0]),
        0 <= i < w.len(),
    ensures
        done.contains(w[i]),
    decreases i,
{
    if i > 0 {
        lemma_sealed_holds_walk(deps, outs, done, w, i - 1);
        assert(step_ok(deps, w, i - 1));
        assert(deps[w[i] as int].contains(w[i - 1]));
        assert(w[i - 1] < deps.len());
        assert(outs[w[i - 1] as int].contains(w[i]));
    }
}

/// A node below which no cycle lies: where a sealed set clear of cycles
/// holds it.
pub proof fn lemma_sealed_clear_has_none_below(
    deps: Seq<Set<usize>>,
    outs: Seq<Set<usize>>,
    done: Set<usize>,
    from: usize,
)
    requires
        closed_graph(deps),
        inverts(deps, outs),
        sealed(outs, done),
        clear_of_cycles(deps, done),
        done.contains(from),
    ensures
        !cycle_below(deps, from),
        forall|to: usize| reaches(deps, from, to) ==> done.contains(to),
{
    assert forall|to: usize| reaches(deps, from, to) implies done.contains(to) by {
        lemma_sealed_holds_reach(deps, outs, done, from, to);
    }
    if cycle_below(deps, from) {
        let p = choose|p: Seq<usize>| #[trigger] is_cycle(deps, p) && reaches(deps, from, p[0]);
        assert(done.contains(p[0]));
    }
}

/// A node whose consumers are all clear of cycles, and which is not its own
/// consumer, is clear of them too.
pub proof fn lemma_extend_clear(deps: Seq<Set<usize>>, done: Set<usize>, node: usize)
    requires
        clear_of_cycles(deps, done),
        forall|to: usize| is_edge(deps, node, to) ==> done.contains(to),
    ensures
        clear_of_cycles(deps, done.insert(node)),
{
    assert forall|p: Seq<usize>, i: int| is_cycle(deps, p) && 0 <= i < p.len() implies !done.insert(
        node,
    ).contains(#[trigger] p[i]) by {
        if p[i] == node {
            let j = if i == p.len() - 1 {
                0
            } else {
                i
            };
            assert(p[j] == node);
            assert(step_ok(deps, p, j));
            assert(done.contains(p[j + 1]));
        }
    }
}

/// Where every node is clear of cycles, the graph has none.
pub proof fn lemma_all_clear(deps: Seq<Set<usize>>, done: Set<usize>)
    requires
        clear_of_cycles(deps, done),
        forall|node: usize| node < deps.len() ==> done.contains(node),
    ensures
        !has_cycle(deps),
{
    if has_cycle(deps) {
        let p = choose|p: Seq<usize>| is_cycle(deps, p);
        lemma_cycle_in_range(deps, p, 0);
        assert(done.contains(p[0]));
    }
}

/// A second edge between the same two nodes changes nothing.
pub proof fn lemma_connect_idempotent(deps: Seq<Set<usize>>, from: usize, to: usize)
    requires
        to < deps.len(),
    ensures
        connected(connected(deps, from, to), from, to) == connected(deps, from, to),
{
    let once = connected(deps, from, to);
    assert(once[to as int].insert(from) =~= once[to as int]);
    assert(connected(once, from, to) =~= once);
}

/// Each node of `stuck` is a node of the graph and depends on a node of
/// `stuck`.
pub open spec fn is_stuck(deps: Seq<Set<usize>>, stuck: Set<usize>) -> bool {
    forall|v: usize| #[trigger]
        stuck.contains(v) ==> v < deps.len() && exists|u: usize|
            stuck.contains(u) && #[trigger] is_edge(deps, u, v)
}

/// A walk of `k` edges inside `stuck` that ends at `v`.
proof fn lemma_walk_back(deps: Seq<Set<usize>>, stuck: Set<usize>, v: usize, k: nat) -> (p: Seq<
    usize,
>)
    requires
        is_stuck(deps, stuck),
        stuck.contains(v),
    ensures
        is_walk(deps, p),
        p.len() == k + 1,
        p[k as int] == v,
        forall|i: int| 0 <= i < p.len() ==> stuck.contains(#[trigger] p[i]),
    decreases k,
{
    if k == 0 {
        seq![v]
    } else {
        let u = choose|u: usize| stuck.contains(u) && #[trigger] is_edge(deps, u, v);
        let q = lemma_walk_back(deps, stuck, u, (k - 1) as nat);
        let p = q.push(v);
        assert forall|i: int| 0 <= i < p.len() - 1 implies #[trigger] step_ok(deps, p, i) by {
            if i < q.len() - 1 {
                assert(step_ok(deps, q, i));
            }
        }
        p
    }
}

/// A non-empty set of nodes, each of which depends on another of the set,
/// holds a cycle.
pub proof fn lemma_stuck_has_cycle(deps: Seq<Set<usize>>, stuck: Set<usize>, v: usize)
    requires
        deps.len() <= usize::MAX,
        is_stuck(deps, stuck),
        stuck.contains(v),
    ensures
        has_cycle(deps),
{
    let n = deps.len();
    let p = lemma_walk_back(deps, stuck, v, n);
    if p.no_duplicates() {
        lemma_distinct_below(p, n);
    }
    let (a, b) = choose|a: int, b: int| 0 <= a < p.len() && 0 <= b < p.len() && a != b && p[a] == p[b];
    let (i, j) = if a < b {
        (a, b)
    } else {
        (b, a)
    };
    let c = p.subrange(i, j + 1);
    assert forall|t: int| 0 <= t < c.len() - 1 implies #[trigger] step_ok(deps, c, t) by {
        assert(step_ok(deps, p, i + t));
    }
    assert(is_cycle(deps, c));
}

} // verus!
