use crate::dag::frontier::draining;
use crate::dag::frontier::lemma_drain_end;
use crate::dag::frontier::lemma_drain_start;
use crate::dag::frontier::lemma_drain_step;
use crate::dag::node::Node;
use crate::dag::sets::below;
use crate::dag::sets::lemma_below;
use crate::dag::sets::lemma_take_next;
use crate::dag::sets::members;
use crate::dag::walks::clear_of_cycles;
use crate::dag::walks::closed_graph;
use crate::dag::walks::connected;
use crate::dag::walks::has_cycle;
use crate::dag::walks::inverts;
use crate::dag::walks::is_edge;
use crate::dag::walks::is_schedule;
use crate::dag::walks::is_source;
use crate::dag::walks::released;
use crate::dag::walks::without;
use crate::dag::walks::is_walk;
use crate::dag::walks::lemma_all_clear;
use crate::dag::walks::cycle_below;
use crate::dag::walks::lemma_back_edge_is_below;
use crate::dag::walks::lemma_cycle_below_consumer;
use crate::dag::walks::lemma_cycle_below_is_cycle;
use crate::dag::walks::lemma_sealed_clear_has_none_below;
use crate::dag::walks::reaches;
use crate::dag::walks::sealed;
use crate::dag::walks::lemma_extend_clear;
use crate::dag::walks::lemma_listed_kept;
use crate::dag::walks::lemma_within_kept;
use crate::dag::walks::listed;
use crate::dag::walks::within;
use crate::dag::walks::sources;
use crate::dag::walks::step_ok;
use std::collections::HashMap;
use std::collections::HashSet;
use std::slice::Iter;
use vstd::prelude::*;
use vstd::set_lib::lemma_len_subset;
use vstd::std_specs::hash::group_hash_axioms;
use vstd::std_specs::hash::spec_hash_keys_iter;
use vstd::std_specs::iter::IteratorSpec;
use vstd::std_specs::slice::axiom_spec_slice_iter;

verus! {

broadcast use {group_hash_axioms, axiom_spec_slice_iter};

/// Why a graph cannot be scheduled.
#[derive(Clone, Copy, Debug, PartialEq, Eq, Structural)]
pub enum DagError {
    /// No node is free of dependencies.
    NoRoots,
    /// Some cycle runs along the edges.
    CycleDetected,
}

impl DagError {
    /// The message that goes with the error.
    pub fn message(&self) -> (text: &'static str)
        ensures
            text@ == (match *self {
                DagError::NoRoots => "No roots found. DAG is invalid!"@,
                DagError::CycleDetected => "Invalid DAG detected"@,
            }),
    {
        match self {
            DagError::NoRoots => "No roots found. DAG is invalid!",
            DagError::CycleDetected => "Invalid DAG detected",
        }
    }
}

/// The colour of a node during the search for cycles: not seen yet, on the
/// path under exploration, or explored with everything below it.
#[derive(Clone, Copy)]
enum CycleCheckStatus {
    Initial,
    Processing,
    Processed,
}

/// The nodes that the search has finished with.
spec fn finished(seen: Map<usize, CycleCheckStatus>) -> Set<usize> {
    Set::new(|u: usize| seen.contains_key(u) && seen[u] is Processed)
}

/// The node is on the path that the search is exploring.
spec fn on_path(seen: Map<usize, CycleCheckStatus>, u: usize) -> bool {
    seen.contains_key(u) && seen[u] is Processing
}

/// Every node that the search has seen is a node of the graph, and is either
/// on the path or finished.
spec fn seen_ok(seen: Map<usize, CycleCheckStatus>, n: nat) -> bool {
    forall|u: usize| #[trigger] seen.contains_key(u) ==> u < n && !(seen[u] is Initial)
}

/// The views of a vector of sets, position by position.
pub open spec fn set_views(sets: Seq<HashSet<usize>>) -> Seq<Set<usize>> {
    Seq::new(sets.len(), |i: int| sets[i]@)
}

/// The bookkeeping of one pass over a graph: what each node still waits for,
/// whom each node feeds, and which nodes are ready.
pub struct DagVisitationInfo {
    dependencies: Vec<HashSet<usize>>,
    dependants: Vec<HashSet<usize>>,
    roots: HashSet<usize>,
}

impl DagVisitationInfo {
    /// What each node still waits for.
    pub closed spec fn spec_dependencies(&self) -> Seq<Set<usize>> {
        set_views(self.dependencies@)
    }

    /// The consumers of each node.
    pub closed spec fn spec_dependants(&self) -> Seq<Set<usize>> {
        set_views(self.dependants@)
    }

    /// The nodes that are ready.
    pub closed spec fn spec_roots(&self) -> Set<usize> {
        self.roots@
    }

    /// The number of nodes.
    pub open spec fn spec_len(&self) -> nat {
        self.spec_dependencies().len()
    }

    /// The three tables speak of the same nodes, and whoever waits for a node
    /// is listed among its consumers.
    pub open spec fn wf(&self) -> bool {
        &&& self.spec_dependants().len() == self.spec_len()
        &&& closed_graph(self.spec_dependencies())
        &&& closed_graph(self.spec_dependants())
        &&& within(self.spec_roots(), self.spec_len())
        &&& listed(self.spec_dependencies(), self.spec_dependants())
    }

    fn new(len: usize) -> (info: Self)
        ensures
            info.wf(),
            info.spec_len() == len,
            forall|i: int| 0 <= i < len ==> info.spec_dependencies()[i] == Set::<usize>::empty(),
            forall|i: int| 0 <= i < len ==> info.spec_dependants()[i] == Set::<usize>::empty(),
            info.spec_roots() == Set::<usize>::empty(),
    {
        let mut result = DagVisitationInfo {
            dependencies: Vec::with_capacity(len),
            dependants: Vec::with_capacity(len),
            roots: HashSet::new(),
        };
        let mut i: usize = 0;
        while i < len
            invariant
                i <= len,
                result.dependencies.len() == i,
                result.dependants.len() == i,
                result.roots@ == Set::<usize>::empty(),
                forall|j: int| 0 <= j < i ==> (#[trigger] result.dependencies[j])@ == Set::<usize>::empty(),
                forall|j: int| 0 <= j < i ==> (#[trigger] result.dependants[j])@ == Set::<usize>::empty(),
            decreases len - i,
        {
            result.dependencies.push(HashSet::new());
            result.dependants.push(HashSet::new());
            i += 1;
        }
        result
    }

    /// Looks for a cycle: none is left unfound, from whichever node it can be
    /// reached. Without a ready node the pass cannot start at all.
    fn check(self) -> (res: Result<Self, DagError>)
        requires
            self.wf(),
            inverts(self.spec_dependencies(), self.spec_dependants()),
        ensures
            match res {
                Ok(info) => info == self && !has_cycle(self.spec_dependencies())
                    && self.spec_roots() != Set::<usize>::empty(),
                Err(DagError::NoRoots) => self.spec_roots() == Set::<usize>::empty(),
                Err(DagError::CycleDetected) => has_cycle(self.spec_dependencies())
                    && self.spec_roots() != Set::<usize>::empty(),
            },
    {
        match self.get_next_root() {
            None => {
                return Err(DagError::NoRoots);
            },
            Some(root) => {
                assert(self.spec_roots().contains(*root));
            },
        }
        let n = self.dependencies.len();
        let mut visited: HashMap<usize, CycleCheckStatus> = HashMap::new();
        let mut id: usize = 0;
        while id < n
            invariant
                id <= n,
                self.spec_roots() != Set::<usize>::empty(),
                n == self.spec_len(),
                self.wf(),
                inverts(self.spec_dependencies(), self.spec_dependants()),
                seen_ok(visited@, n as nat),
                forall|u: usize| !#[trigger] on_path(visited@, u),
                clear_of_cycles(self.spec_dependencies(), finished(visited@)),
                sealed(self.spec_dependants(), finished(visited@)),
                forall|u: usize| u < id ==> finished(visited@).contains(u),
            decreases n - id,
        {
            if !visited.contains_key(&id) {
                let ghost before = visited@;
                let ok = self._check(&id, &mut visited, Ghost(Seq::empty()));
                if !ok {
                    proof {
                        lemma_cycle_below_is_cycle(self.spec_dependencies(), id);
                    }
                    return Err(DagError::CycleDetected);
                }
                proof {
                    assert forall|u: usize| u < id + 1 implies finished(visited@).contains(u) by {
                        if u < id {
                            assert(finished(before).contains(u));
                        }
                    }
                }
            } else {
                assert(!on_path(visited@, id));
            }
            id += 1;
        }
        proof {
            lemma_all_clear(self.spec_dependencies(), finished(visited@));
        }
        Ok(self)
    }

    /// Explores what `curr_node_id` feeds, depth first, and finds out whether
    /// a cycle lies below it. Where none does, every node that it reaches is
    /// finished afterwards, and the path under exploration is as before.
    /// `path` is the chain of nodes under exploration that leads to
    /// `curr_node_id`.
    fn _check(
        &self,
        curr_node_id: &usize,
        visited: &mut HashMap<usize, CycleCheckStatus>,
        Ghost(path): Ghost<Seq<usize>>,
    ) -> (ok: bool)
        requires
            self.wf(),
            inverts(self.spec_dependencies(), self.spec_dependants()),
            self.spec_len() <= usize::MAX,
            *curr_node_id < self.spec_len(),
            !old(visited)@.contains_key(*curr_node_id),
            seen_ok(old(visited)@, self.spec_len()),
            forall|u: usize|
                #![trigger on_path(old(visited)@, u)]
                #![trigger path.contains(u)]
                on_path(old(visited)@, u) <==> path.contains(u),
            path.len() > 0 ==> is_walk(self.spec_dependencies(), path) && is_edge(
                self.spec_dependencies(),
                path[path.len() - 1],
                *curr_node_id,
            ),
            clear_of_cycles(self.spec_dependencies(), finished(old(visited)@)),
            sealed(self.spec_dependants(), finished(old(visited)@)),
        ensures
            ok == !cycle_below(self.spec_dependencies(), *curr_node_id),
            ok ==> {
                &&& sealed(self.spec_dependants(), finished(final(visited)@))
                &&& forall|to: usize|
                    reaches(self.spec_dependencies(), *curr_node_id, to) ==> finished(
                        final(visited)@,
                    ).contains(to)
                &&& seen_ok(final(visited)@, self.spec_len())
                &&& forall|u: usize|
                    #![trigger on_path(final(visited)@, u)]
                    #![trigger path.contains(u)]
                    on_path(final(visited)@, u) <==> path.contains(u)
                &&& forall|u: usize| old(visited)@.contains_key(u) ==> final(visited)@.contains_key(u)
                &&& finished(old(visited)@).subset_of(finished(final(visited)@))
                &&& finished(final(visited)@).contains(*curr_node_id)
                &&& clear_of_cycles(self.spec_dependencies(), finished(final(visited)@))
            },
        decreases self.spec_len() - old(visited)@.dom().len(),
    {
        let ghost deps = self.spec_dependencies();
        let ghost n = self.spec_len();
        let ghost before = visited@;
        let curr = *curr_node_id;
        visited.insert(curr, CycleCheckStatus::Processing);
        let ghost here = path.push(curr);
        proof {
            assert forall|i: int| 0 <= i < here.len() - 1 implies #[trigger] step_ok(deps, here, i) by {
                if i < path.len() - 1 {
                    assert(step_ok(deps, path, i));
                }
            }
            assert forall|u: usize| on_path(visited@, u) implies here.contains(u) by {
                if u == curr {
                    assert(here[path.len() as int] == u);
                } else {
                    assert(on_path(before, u));
                    assert(path.contains(u));
                    let k = choose|k: int| 0 <= k < path.len() && path[k] == u;
                    assert(here[k] == u);
                }
            }
            assert forall|u: usize| here.contains(u) implies on_path(visited@, u) by {
                if u != curr {
                    let k = choose|k: int| 0 <= k < here.len() && here[k] == u;
                    assert(path[k] == u);
                    assert(path.contains(u));
                    assert(on_path(before, u));
                }
            }
            assert(finished(visited@) =~= finished(before));
        }
        let outs = members(self.get_dependants(&curr));
        let mut i: usize = 0;
        while i < outs.len()
            invariant
                i <= outs.len(),
                deps == self.spec_dependencies(),
                n == self.spec_len(),
                n <= usize::MAX,
                curr < n,
                outs@.to_set() == self.spec_dependants()[curr as int],
                self.wf(),
                inverts(deps, self.spec_dependants()),
                is_walk(deps, here),
                here[here.len() - 1] == curr,
                seen_ok(visited@, n),
                forall|u: usize|
                    #![trigger on_path(visited@, u)]
                    #![trigger here.contains(u)]
                    on_path(visited@, u) <==> here.contains(u),
                forall|u: usize| before.contains_key(u) ==> visited@.contains_key(u),
                !before.contains_key(curr),
                visited@.contains_key(curr),
                finished(before).subset_of(finished(visited@)),
                clear_of_cycles(deps, finished(visited@)),
                sealed(self.spec_dependants(), finished(visited@)),
                forall|j: int| 0 <= j < i ==> finished(visited@).contains(#[trigger] outs[j]),
                before == old(visited)@,
                curr == *curr_node_id,
            decreases outs.len() - i,
        {
            let dep = outs[i];
            proof {
                assert(outs@.to_set().contains(dep));
                assert(self.spec_dependants()[curr as int].contains(dep));
                assert(dep < n);
                assert(is_edge(deps, curr, dep));
            }
            let ghost mid = visited@;
            let status = match visited.get(&dep) {
                Some(v) => *v,
                None => CycleCheckStatus::Initial,
            };

            match status {
                CycleCheckStatus::Initial => {
                    proof {
                        lemma_below(n);
                        assert(visited@.dom().subset_of(below(n)));
                        lemma_len_subset(visited@.dom(), below(n));
                        assert(before.dom().insert(curr).subset_of(visited@.dom()));
                        lemma_len_subset(before.dom().insert(curr), visited@.dom());
                    }
                    if !self._check(&dep, visited, Ghost(here)) {
                        proof {
                            lemma_cycle_below_consumer(deps, curr, dep);
                        }
                        return false;
                    }
                    proof {
                        assert forall|j: int| 0 <= j < i + 1 implies finished(visited@).contains(
                            #[trigger] outs[j],
                        ) by {
                            if j < i {
                                assert(finished(mid).contains(outs[j]));
                            }
                        }
                    }
                },
                CycleCheckStatus::Processing => {
                    proof {
                        assert(on_path(visited@, dep));
                        let k = choose|k: int| 0 <= k < here.len() && here[k] == dep;
                        lemma_back_edge_is_below(deps, here, k);
                    }
                    return false;
                },
                CycleCheckStatus::Processed => {},
            }
            i += 1;
        }
        let ghost last = visited@;
        visited.insert(curr, CycleCheckStatus::Processed);
        proof {
            assert(finished(visited@) =~= finished(last).insert(curr));
            assert forall|to: usize| is_edge(deps, curr, to) implies finished(last).contains(to) by {
                assert(self.spec_dependants()[curr as int].contains(to));
                assert(outs@.to_set().contains(to));
                let j = choose|j: int| 0 <= j < outs@.len() && outs@[j] == to;
                assert(finished(last).contains(outs[j]));
            }
            lemma_extend_clear(deps, finished(last), curr);
            assert forall|u: usize, w: usize|
                finished(visited@).contains(u) && u < self.spec_dependants().len()
                    && #[trigger] self.spec_dependants()[u as int].contains(w) implies finished(
                visited@,
            ).contains(w) by {
                if u == curr {
                    assert(is_edge(deps, curr, w));
                } else {
                    assert(finished(last).contains(u));
                }
            }
            lemma_sealed_clear_has_none_below(
                deps,
                self.spec_dependants(),
                finished(visited@),
                curr,
            );
            assert forall|u: usize| on_path(visited@, u) <==> path.contains(u) by {
                if u == curr {
                    if path.contains(u) {
                        assert(on_path(before, u));
                    }
                } else if path.contains(u) {
                    assert(on_path(before, u));
                    assert(on_path(last, u));
                } else if on_path(visited@, u) {
                    assert(on_path(last, u));
                    let k = choose|k: int| 0 <= k < here.len() && here[k] == u;
                    assert(path[k] == u);
                }
            }
        }
        true
    }

    // dependencies are upstream
    fn add_dependency(&mut self, from_node_id: &usize, to_node_id: &usize)
        requires
            old(self).wf(),
            *from_node_id < old(self).spec_len(),
            *to_node_id < old(self).spec_len(),
            old(self).spec_dependants()[*from_node_id as int].contains(*to_node_id),
        ensures
            final(self).wf(),
            final(self).spec_dependencies() == connected(
                old(self).spec_dependencies(),
                *from_node_id,
                *to_node_id,
            ),
            final(self).spec_dependants() == old(self).spec_dependants(),
            final(self).spec_roots() == old(self).spec_roots(),
    {
        self.dependencies[*to_node_id].insert(*from_node_id);
        proof {
            assert(final(self).spec_dependencies() =~= connected(
                old(self).spec_dependencies(),
                *from_node_id,
                *to_node_id,
            ));
            assert(final(self).spec_dependants() =~= old(self).spec_dependants());
            lemma_listed_kept(
                old(self).spec_dependencies(),
                old(self).spec_dependants(),
                final(self).spec_dependencies(),
                final(self).spec_dependants(),
            );
        }
    }

    // dependants are downstream
    fn add_dependant(&mut self, from_node_id: &usize, to_node_id: &usize)
        requires
            old(self).wf(),
            *from_node_id < old(self).spec_len(),
            *to_node_id < old(self).spec_len(),
        ensures
            final(self).wf(),
            final(self).spec_dependants() == connected(
                old(self).spec_dependants(),
                *to_node_id,
                *from_node_id,
            ),
            final(self).spec_dependencies() == old(self).spec_dependencies(),
            final(self).spec_roots() == old(self).spec_roots(),
    {
        self.dependants[*from_node_id].insert(*to_node_id);
        proof {
            assert(final(self).spec_dependants() =~= connected(
                old(self).spec_dependants(),
                *to_node_id,
                *from_node_id,
            ));
            assert(final(self).spec_dependencies() =~= old(self).spec_dependencies());
            lemma_listed_kept(
                old(self).spec_dependencies(),
                old(self).spec_dependants(),
                final(self).spec_dependencies(),
                final(self).spec_dependants(),
            );
        }
    }

    fn forget_dependency(&mut self, from_node_id: &usize, to_node_id: &usize)
        requires
            old(self).wf(),
            *to_node_id < old(self).spec_len(),
        ensures
            final(self).wf(),
            final(self).spec_dependencies() == old(self).spec_dependencies().update(
                *to_node_id as int,
                old(self).spec_dependencies()[*to_node_id as int].remove(*from_node_id),
            ),
            final(self).spec_dependants() == old(self).spec_dependants(),
            final(self).spec_roots() == old(self).spec_roots(),
    {
        self.dependencies[*to_node_id].remove(from_node_id);
        proof {
            assert(final(self).spec_dependencies() =~= old(self).spec_dependencies().update(
                *to_node_id as int,
                old(self).spec_dependencies()[*to_node_id as int].remove(*from_node_id),
            ));
            assert(final(self).spec_dependants() =~= old(self).spec_dependants());
            lemma_listed_kept(
                old(self).spec_dependencies(),
                old(self).spec_dependants(),
                final(self).spec_dependencies(),
                final(self).spec_dependants(),
            );
        }
    }

    fn add_relationship(&mut self, from_node_id: &usize, to_node_id: &usize)
        requires
            old(self).wf(),
            *from_node_id < old(self).spec_len(),
            *to_node_id < old(self).spec_len(),
        ensures
            final(self).wf(),
            final(self).spec_dependencies() == connected(
                old(self).spec_dependencies(),
                *from_node_id,
                *to_node_id,
            ),
            final(self).spec_dependants() == connected(
                old(self).spec_dependants(),
                *to_node_id,
                *from_node_id,
            ),
            final(self).spec_roots() == old(self).spec_roots(),
    {
        self.add_dependant(from_node_id, to_node_id);
        self.add_dependency(from_node_id, to_node_id);
    }

    fn add_root_node(&mut self, node_id: &usize)
        requires
            old(self).wf(),
            *node_id < old(self).spec_len(),
        ensures
            final(self).wf(),
            final(self).spec_roots() == old(self).spec_roots().insert(*node_id),
            final(self).spec_dependencies() == old(self).spec_dependencies(),
            final(self).spec_dependants() == old(self).spec_dependants(),
    {
        self.roots.insert(*node_id);
        proof {
            lemma_within_kept(old(self).spec_roots(), final(self).spec_roots(), old(self).spec_len());
        }
    }

    fn remove_root_node(&mut self, node_id: &usize)
        requires
            old(self).wf(),
        ensures
            final(self).wf(),
            final(self).spec_roots() == old(self).spec_roots().remove(*node_id),
            final(self).spec_dependencies() == old(self).spec_dependencies(),
            final(self).spec_dependants() == old(self).spec_dependants(),
    {
        self.roots.remove(node_id);
        proof {
            lemma_within_kept(old(self).spec_roots(), final(self).spec_roots(), old(self).spec_len());
        }
    }

    /// One of the ready nodes, if there is any; which one is not fixed.
    pub fn get_next_root(&self) -> (root: Option<&usize>)
        ensures
            match root {
                Some(id) => self.spec_roots().contains(*id),
                None => self.spec_roots() == Set::<usize>::empty(),
            },
    {
        let ghost keys = spec_hash_keys_iter(&self.roots).remaining();
        for id in it: self.roots.iter()
            invariant
                it.seq() == keys,
                it.index() == 0,
                keys.unref().to_set() == self.spec_roots(),
        {
            proof {
                assert(keys.unref()[0] == *keys[0]);
                assert(keys.unref().to_set().contains(*id));
            }
            return Some(id);
        }
        proof {
            assert(keys.unref().to_set() =~= Set::<usize>::empty());
        }
        None
    }

    pub fn get_roots(&self) -> (roots: &HashSet<usize>)
        ensures
            roots@ == self.spec_roots(),
    {
        &self.roots
    }

    pub fn get_dependencies(&self, node_id: &usize) -> (deps: &HashSet<usize>)
        requires
            *node_id < self.spec_len(),
        ensures
            deps@ == self.spec_dependencies()[*node_id as int],
    {
        &self.dependencies[*node_id]
    }

    pub fn get_dependants(&self, node_id: &usize) -> (outs: &HashSet<usize>)
        requires
            self.wf(),
            *node_id < self.spec_len(),
        ensures
            outs@ == self.spec_dependants()[*node_id as int],
    {
        &self.dependants[*node_id]
    }
}

/// A directed dependency graph over values of `T`. Nodes are numbered from
/// zero in the order of insertion and never leave; node `to` depends on each
/// member of its dependency set.
#[derive(PartialEq, Eq, Debug)]
pub struct Dag<T> {
    nodes: Vec<Node<T>>,
    dependencies: Vec<HashSet<usize>>,
}

impl<T> Dag<T> {
    /// The nodes, in the order of their identifiers.
    pub closed spec fn spec_nodes(&self) -> Seq<Node<T>> {
        self.nodes@
    }

    /// The dependency set of each node.
    pub closed spec fn spec_dependencies(&self) -> Seq<Set<usize>> {
        set_views(self.dependencies@)
    }

    /// The number of nodes.
    pub open spec fn spec_len(&self) -> nat {
        self.spec_nodes().len()
    }

    /// Each node carries its position as identifier, has a dependency set, and
    /// depends on nodes of the graph only.
    pub open spec fn wf(&self) -> bool {
        &&& self.spec_dependencies().len() == self.spec_nodes().len()
        &&& forall|i: int| 0 <= i < self.spec_nodes().len() ==> (#[trigger] self.spec_nodes()[i]).id() == i
        &&& closed_graph(self.spec_dependencies())
    }

    pub fn new() -> (dag: Self)
        ensures
            dag.wf(),
            dag.spec_nodes() == Seq::<Node<T>>::empty(),
            dag.spec_dependencies() == Seq::<Set<usize>>::empty(),
    {
        Dag { nodes: Vec::new(), dependencies: Vec::new() }
    }

    pub fn add_node(&mut self, value: T) -> (id: usize)
        requires
            old(self).wf(),
        ensures
            final(self).wf(),
            id == old(self).spec_len(),
            final(self).spec_nodes().len() == old(self).spec_len() + 1,
            final(self).spec_nodes().take(id as int) == old(self).spec_nodes(),
            final(self).spec_nodes()[id as int].value() == value,
            final(self).spec_dependencies() == old(self).spec_dependencies().push(Set::empty()),
    {
        let id = self.nodes.len();
        self.nodes.push(Node::new(id, value));
        self.dependencies.push(HashSet::new());
        proof {
            assert(final(self).spec_dependencies() =~= old(self).spec_dependencies().push(
                Set::empty(),
            ));
            assert(final(self).spec_nodes().take(id as int) =~= old(self).spec_nodes());
        }
        id
    }

    pub fn connect(&mut self, from_node_id: usize, to_node_id: usize)
        requires
            old(self).wf(),
            from_node_id < old(self).spec_len(),
            to_node_id < old(self).spec_len(),
        ensures
            final(self).wf(),
            final(self).spec_nodes() == old(self).spec_nodes(),
            final(self).spec_dependencies() == connected(
                old(self).spec_dependencies(),
                from_node_id,
                to_node_id,
            ),
    {
        let mut set = HashSet::new();
        std::mem::swap(&mut set, &mut self.dependencies[to_node_id]);
        set.insert(from_node_id);
        self.dependencies[to_node_id] = set;
        proof {
            assert(final(self).spec_dependencies() =~= connected(
                old(self).spec_dependencies(),
                from_node_id,
                to_node_id,
            ));
        }
    }

    pub fn get_num_nodes(&self) -> (n: usize)
        requires
            self.wf(),
        ensures
            n == self.spec_len(),
    {
        self.nodes.len()
    }

    pub fn get_node(&self, node_id: usize) -> (node: &Node<T>)
        requires
            node_id < self.spec_len(),
        ensures
            *node == self.spec_nodes()[node_id as int],
    {
        &self.nodes[node_id]
    }

    pub fn get_mut_node(&mut self, node_id: usize) -> (node: &mut Node<T>)
        requires
            node_id < old(self).spec_len(),
        ensures
            *node == old(self).spec_nodes()[node_id as int],
            final(self).spec_nodes() == old(self).spec_nodes().update(node_id as int, *final(node)),
            final(self).spec_dependencies() == old(self).spec_dependencies(),
    {
        &mut self.nodes[node_id]
    }

    pub fn iter_nodes(&self) -> (iter: Iter<'_, Node<T>>)
        ensures
            iter.remaining() == self.spec_nodes().as_ref(),
    {
        self.nodes.iter()
    }

    pub fn get_dependencies(&self, node_id: &usize) -> (deps: &HashSet<usize>)
        requires
            self.wf(),
            *node_id < self.spec_len(),
        ensures
            deps@ == self.spec_dependencies()[*node_id as int],
    {
        &self.dependencies[*node_id]
    }

    /// Starts a pass over the graph: every node waits for all its
    /// dependencies, and the nodes without any are ready. No pass starts on a
    /// graph without such a node, nor on one with a cycle.
    pub fn build_bfs(&self) -> (bfs: Result<DagVisitationInfo, DagError>)
        requires
            self.wf(),
        ensures
            has_cycle(self.spec_dependencies()) ==> bfs is Err,
            match bfs {
                Ok(info) => {
                    &&& info.wf()
                    &&& info.spec_dependencies() == self.spec_dependencies()
                    &&& inverts(self.spec_dependencies(), info.spec_dependants())
                    &&& info.spec_roots() == sources(self.spec_dependencies())
                    &&& sources(self.spec_dependencies()) != Set::<usize>::empty()
                    &&& !has_cycle(self.spec_dependencies())
                },
                Err(DagError::NoRoots) => sources(self.spec_dependencies()) == Set::<usize>::empty(),
                Err(DagError::CycleDetected) => sources(self.spec_dependencies()) != Set::<
                    usize,
                >::empty() && has_cycle(self.spec_dependencies()),
            },
    {
        let n = self.get_num_nodes();
        let ghost deps = self.spec_dependencies();
        let mut bfs = DagVisitationInfo::new(n);
        let mut to_node_id: usize = 0;
        while to_node_id < n
            invariant
                to_node_id <= n,
                self.wf(),
                n == self.spec_len(),
                deps == self.spec_dependencies(),
                bfs.wf(),
                bfs.spec_len() == n,
                bfs.spec_roots() == Set::<usize>::empty(),
                forall|v: usize, u: usize|
                    v < n ==> (#[trigger] bfs.spec_dependencies()[v as int].contains(u) <==> v
                        < to_node_id && deps[v as int].contains(u)),
                forall|u: usize, v: usize|
                    u < n ==> (#[trigger] bfs.spec_dependants()[u as int].contains(v) <==> v
                        < to_node_id && deps[v as int].contains(u)),
            decreases n - to_node_id,
        {
            let froms = members(self.get_dependencies(&to_node_id));
            let mut j: usize = 0;
            while j < froms.len()
                invariant
                    j <= froms.len(),
                    to_node_id < n,
                    self.wf(),
                    n == self.spec_len(),
                    deps == self.spec_dependencies(),
                    froms@.to_set() == deps[to_node_id as int],
                    bfs.wf(),
                    bfs.spec_len() == n,
                    bfs.spec_roots() == Set::<usize>::empty(),
                    forall|v: usize, u: usize|
                        v < n ==> (#[trigger] bfs.spec_dependencies()[v as int].contains(u) <==> (v
                            < to_node_id && deps[v as int].contains(u)) || (v == to_node_id
                            && froms@.take(j as int).contains(u))),
                    forall|u: usize, v: usize|
                        u < n ==> (#[trigger] bfs.spec_dependants()[u as int].contains(v) <==> (v
                            < to_node_id && deps[v as int].contains(u)) || (v == to_node_id
                            && froms@.take(j as int).contains(u))),
                decreases froms.len() - j,
            {
                let from_node_id = froms[j];
                let ghost prev_deps = bfs.spec_dependencies();
                let ghost prev_outs = bfs.spec_dependants();
                proof {
                    assert(froms@.to_set().contains(from_node_id));
                    assert(deps[to_node_id as int].contains(from_node_id));
                }
                bfs.add_relationship(&from_node_id, &to_node_id);
                proof {
                    assert forall|v: usize, u: usize| v < n implies (
                    #[trigger] bfs.spec_dependencies()[v as int].contains(u) <==> (v < to_node_id
                        && deps[v as int].contains(u)) || (v == to_node_id && froms@.take(
                        j + 1,
                    ).contains(u))) by {
                        lemma_take_next(froms@, j as int, u);
                        assert(prev_deps[v as int].contains(u) <==> (v < to_node_id
                            && deps[v as int].contains(u)) || (v == to_node_id && froms@.take(
                            j as int,
                        ).contains(u)));
                    }
                    assert forall|u: usize, v: usize| u < n implies (
                    #[trigger] bfs.spec_dependants()[u as int].contains(v) <==> (v < to_node_id
                        && deps[v as int].contains(u)) || (v == to_node_id && froms@.take(
                        j + 1,
                    ).contains(u))) by {
                        lemma_take_next(froms@, j as int, u);
                        assert(prev_outs[u as int].contains(v) <==> (v < to_node_id
                            && deps[v as int].contains(u)) || (v == to_node_id && froms@.take(
                            j as int,
                        ).contains(u)));
                    }
                }
                j += 1;
            }
            proof {
                assert(froms@.take(froms@.len() as int) == froms@);
                assert forall|u: usize| froms@.contains(u) <==> deps[to_node_id as int].contains(
                    u,
                ) by {
                    assert(froms@.contains(u) <==> froms@.to_set().contains(u));
                }
            }
            to_node_id += 1;
        }
        proof {
            assert forall|v: int| 0 <= v < n implies #[trigger] bfs.spec_dependencies()[v]
                =~= deps[v] by {
                let w = v as usize;
                assert forall|u: usize| bfs.spec_dependencies()[w as int].contains(u)
                    <==> deps[w as int].contains(u) by {}
            }
            assert(bfs.spec_dependencies() =~= deps);
        }

        let mut i: usize = 0;
        while i < n
            invariant
                i <= n,
                n == self.spec_len(),
                bfs.wf(),
                bfs.spec_len() == n,
                bfs.spec_dependencies() == deps,
                inverts(deps, bfs.spec_dependants()),
                forall|v: usize| #[trigger] bfs.spec_roots().contains(v) <==> v < i && is_source(deps, v),
            decreases n - i,
        {
            if bfs.get_dependencies(&i).is_empty() {
                bfs.add_root_node(&i);
            }
            i += 1;
        }
        proof {
            assert(bfs.spec_roots() =~= sources(deps));
        }

        bfs.check()
    }

    /// The node to visit next: one of the ready ones, unless none is left.
    pub fn next_in_bfs(&self, visitation_info: &DagVisitationInfo) -> (next: Option<&Node<T>>)
        requires
            self.wf(),
            visitation_info.wf(),
            visitation_info.spec_len() == self.spec_len(),
        ensures
            match next {
                Some(node) => visitation_info.spec_roots().contains(node.id()) && *node
                    == self.spec_nodes()[node.id() as int],
                None => visitation_info.spec_roots() == Set::<usize>::empty(),
            },
    {
        match visitation_info.get_next_root() {
            Some(id) => Some(self.get_node(*id)),
            None => None,
        }
    }

    /// Marks `node` as visited: it is ready no longer, nobody waits for it any
    /// more, and each of its consumers that now waits for nothing is ready.
    pub fn visited_in_bfs(&self, visitation_info: &mut DagVisitationInfo, node: &Node<T>)
        requires
            old(visitation_info).wf(),
            node.id() < old(visitation_info).spec_len(),
        ensures
            final(visitation_info).wf(),
            final(visitation_info).spec_dependants() == old(visitation_info).spec_dependants(),
            final(visitation_info).spec_dependencies() == without(
                old(visitation_info).spec_dependencies(),
                node.id(),
            ),
            final(visitation_info).spec_roots() == old(visitation_info).spec_roots().remove(
                node.id(),
            ).union(
                released(
                    old(visitation_info).spec_dependants(),
                    final(visitation_info).spec_dependencies(),
                    node.id(),
                ),
            ),
    {
        let node_id = *node.get_id();
        let n = visitation_info.dependencies.len();
        let ghost deps0 = visitation_info.spec_dependencies();
        let ghost outs0 = visitation_info.spec_dependants();
        let ghost roots0 = visitation_info.spec_roots();
        let outs = members(visitation_info.get_dependants(&node_id));
        let mut i: usize = 0;
        while i < outs.len()
            invariant
                i <= outs.len(),
                node_id < n,
                n == visitation_info.spec_len(),
                visitation_info.wf(),
                visitation_info.spec_dependants() == outs0,
                visitation_info.spec_roots() == roots0,
                outs@.to_set() == outs0[node_id as int],
                closed_graph(outs0),
                outs0.len() == n,
                deps0.len() == n,
                forall|v: usize, u: usize|
                    v < n ==> (#[trigger] visitation_info.spec_dependencies()[v as int].contains(u)
                        <==> deps0[v as int].contains(u) && !(u == node_id && outs@.take(
                        i as int,
                    ).contains(v))),
            decreases outs.len() - i,
        {
            let id = outs[i];
            let ghost prev_deps = visitation_info.spec_dependencies();
            proof {
                assert(outs@.to_set().contains(id));
                assert(outs0[node_id as int].contains(id));
            }
            visitation_info.forget_dependency(&node_id, &id);
            proof {
                assert forall|v: usize, u: usize| v < n implies (
                #[trigger] visitation_info.spec_dependencies()[v as int].contains(u)
                    <==> deps0[v as int].contains(u) && !(u == node_id && outs@.take(
                    i + 1,
                ).contains(v))) by {
                    lemma_take_next(outs@, i as int, v);
                    assert(prev_deps[v as int].contains(u) <==> deps0[v as int].contains(u) && !(u
                        == node_id && outs@.take(i as int).contains(v)));
                }
            }
            i += 1;
        }
        proof {
            assert(outs@.take(outs@.len() as int) == outs@);
            assert forall|v: usize| outs@.contains(v) <==> outs0[node_id as int].contains(v) by {
                assert(outs@.contains(v) <==> outs@.to_set().contains(v));
            }
            assert forall|v: int| 0 <= v < n implies #[trigger] visitation_info.spec_dependencies()[v]
                =~= deps0[v].remove(node_id) by {
                let w = v as usize;
                assert forall|u: usize| visitation_info.spec_dependencies()[w as int].contains(u)
                    <==> deps0[w as int].remove(node_id).contains(u) by {
                    if u == node_id && deps0[w as int].contains(u) {
                        assert(is_edge(deps0, node_id, w));
                        assert(outs0[node_id as int].contains(w));
                        assert(outs@.contains(w));
                    }
                }
            }
            assert(visitation_info.spec_dependencies() =~= without(deps0, node_id));
        }

        visitation_info.remove_root_node(&node_id);
        let ghost deps1 = visitation_info.spec_dependencies();

        let mut i: usize = 0;
        while i < outs.len()
            invariant
                i <= outs.len(),
                node_id < n,
                n == visitation_info.spec_len(),
                visitation_info.wf(),
                visitation_info.spec_dependants() == outs0,
                visitation_info.spec_dependencies() == deps1,
                outs@.to_set() == outs0[node_id as int],
                closed_graph(outs0),
                outs0.len() == n,
                forall|v: usize| #[trigger]
                    visitation_info.spec_roots().contains(v) <==> roots0.remove(node_id).contains(
                        v,
                    ) || (outs@.take(i as int).contains(v) && is_source(deps1, v)),
            decreases outs.len() - i,
        {
            let id = outs[i];
            let ghost prev_roots = visitation_info.spec_roots();
            proof {
                assert(outs@.to_set().contains(id));
                assert(outs0[node_id as int].contains(id));
            }
            if visitation_info.get_dependencies(&id).is_empty() {
                visitation_info.add_root_node(&id);
            }
            proof {
                assert forall|v: usize| #[trigger]
                    visitation_info.spec_roots().contains(v) <==> roots0.remove(node_id).contains(
                        v,
                    ) || (outs@.take(i + 1).contains(v) && is_source(deps1, v)) by {
                    lemma_take_next(outs@, i as int, v);
                    assert(prev_roots.contains(v) <==> roots0.remove(node_id).contains(v) || (
                    outs@.take(i as int).contains(v) && is_source(deps1, v)));
                }
            }
            i += 1;
        }
        proof {
            assert(outs@.take(outs@.len() as int) == outs@);
            assert forall|v: usize| outs@.contains(v) <==> outs0[node_id as int].contains(v) by {
                assert(outs@.contains(v) <==> outs@.to_set().contains(v));
            }
            assert(visitation_info.spec_roots() =~= roots0.remove(node_id).union(
                released(outs0, deps1, node_id),
            ));
        }
    }

    /// Runs a whole pass: visits the ready nodes one after another until none
    /// is left, and reports the order of the visits. On a graph that can be
    /// scheduled the pass visits every node, once, after all that it depends on.
    pub fn bfs_order(&self) -> (res: Result<Vec<usize>, DagError>)
        requires
            self.wf(),
        ensures
            match res {
                Ok(order) => is_schedule(self.spec_dependencies(), order@) && !has_cycle(
                    self.spec_dependencies(),
                ) && sources(self.spec_dependencies()) != Set::<usize>::empty(),
                Err(DagError::NoRoots) => sources(self.spec_dependencies()) == Set::<usize>::empty(),
                Err(DagError::CycleDetected) => sources(self.spec_dependencies()) != Set::<
                    usize,
                >::empty() && has_cycle(self.spec_dependencies()),
            },
    {
        let mut bfs = match self.build_bfs() {
            Ok(bfs) => bfs,
            Err(e) => {
                return Err(e);
            },
        };
        let n = self.get_num_nodes();
        let ghost deps = self.spec_dependencies();
        let ghost outs = bfs.spec_dependants();
        let mut order: Vec<usize> = Vec::new();
        proof {
            lemma_drain_start(deps, outs);
        }
        loop
            invariant
                self.wf(),
                n == self.spec_len(),
                deps == self.spec_dependencies(),
                bfs.wf(),
                bfs.spec_len() == n,
                bfs.spec_dependants() == outs,
                !has_cycle(deps),
                draining(deps, outs, bfs.spec_dependencies(), bfs.spec_roots(), order@),
            ensures
                is_schedule(deps, order@),
            decreases n - order@.len(),
        {
            match self.next_in_bfs(&bfs) {
                Some(node) => {
                    let id = *node.get_id();
                    proof {
                        lemma_drain_step(
                            deps,
                            outs,
                            bfs.spec_dependencies(),
                            bfs.spec_roots(),
                            order@,
                            id,
                        );
                    }
                    self.visited_in_bfs(&mut bfs, node);
                    order.push(id);
                },
                None => {
                    proof {
                        lemma_drain_end(
                            deps,
                            outs,
                            bfs.spec_dependencies(),
                            bfs.spec_roots(),
                            order@,
                        );
                    }
                    break ;
                },
            }
        }
        Ok(order)
    }
}

} // verus!
