use rust_model_core::dag::node::Node;
use rust_model_core::dag::Dag;
use rust_model_core::dag::DagError;
use std::collections::HashSet;

#[derive(Hash, Eq, PartialEq, Debug)]
struct MockStruct {
    id: char,
}

impl MockStruct {
    fn new(id: char) -> MockStruct {
        MockStruct { id }
    }
}

#[test]
fn build_dag() {
    let mut dag = Dag::new();

    let a = dag.add_node(MockStruct::new('A'));
    let b = dag.add_node(MockStruct::new('a'));
    let c = dag.add_node(MockStruct::new('C'));
    let d = dag.add_node(MockStruct::new('D'));
    let e = dag.add_node(MockStruct::new('E'));
    let f = dag.add_node(MockStruct::new('F'));
    let g = dag.add_node(MockStruct::new('G'));
    let h = dag.add_node(MockStruct::new('H'));

    dag.connect(a, b);
    dag.connect(b, c);
    dag.connect(c, d);
    dag.connect(d, e);
    dag.connect(d, f);
    dag.connect(f, g);
    dag.connect(f, h);

    let bfs = dag.build_bfs();
    assert!(bfs.is_ok());
}

#[test]
fn build_dag_with_circular_dependency() {
    let mut dag = Dag::new();

    let a = dag.add_node(MockStruct::new('A'));
    let b = dag.add_node(MockStruct::new('a'));
    let c = dag.add_node(MockStruct::new('C'));
    let d = dag.add_node(MockStruct::new('D'));
    let e = dag.add_node(MockStruct::new('E'));
    let f = dag.add_node(MockStruct::new('F'));
    let g = dag.add_node(MockStruct::new('G'));
    let h = dag.add_node(MockStruct::new('H'));

    dag.connect(a, b);
    dag.connect(b, c);
    dag.connect(c, d);
    dag.connect(d, e);
    dag.connect(d, f);
    dag.connect(f, g);
    dag.connect(f, h);
    dag.connect(d, b); // causes circular dependency

    let bfs = dag.build_bfs();
    assert!(bfs.is_err());
}

#[test]
fn remove_nodes() {
    let mut dag = Dag::new();

    let a = dag.add_node(MockStruct::new('A'));
    let b = dag.add_node(MockStruct::new('B'));

    dag.connect(a, b);

    let mut bfs = dag.build_bfs().unwrap();

    assert!(
        !bfs.get_dependencies(&b).is_empty(),
        "Node was not successfully removed"
    );

    dag.visited_in_bfs(&mut bfs, dag.get_node(a));

    assert!(
        bfs.get_dependencies(&b).is_empty(),
        "Node was not successfully removed"
    );
}

#[test]
fn node_hash() {
    let mut dag = Dag::new();

    let a = dag.add_node(MockStruct::new('A'));
    let b = dag.add_node(MockStruct::new('a'));
    let c = dag.add_node(MockStruct::new('C'));
    let d = dag.add_node(MockStruct::new('D'));
    let e = dag.add_node(MockStruct::new('E'));
    let f = dag.add_node(MockStruct::new('F'));
    let g = dag.add_node(MockStruct::new('G'));
    let h = dag.add_node(MockStruct::new('H'));

    let mut hash: HashSet<&Node<MockStruct>> = HashSet::new();

    hash.insert(dag.get_node(a));
    hash.insert(dag.get_node(b));
    hash.insert(dag.get_node(c));
    hash.insert(dag.get_node(d));
    hash.insert(dag.get_node(e));
    hash.insert(dag.get_node(f));
    hash.insert(dag.get_node(g));
    hash.insert(dag.get_node(h));

    assert!(hash.contains(dag.get_node(a)), "Node did not hash properly");
    assert!(hash.contains(dag.get_node(b)), "Node did not hash properly");
    assert!(hash.contains(dag.get_node(c)), "Node did not hash properly");
    assert!(hash.contains(dag.get_node(d)), "Node did not hash properly");
    assert!(hash.contains(dag.get_node(e)), "Node did not hash properly");
    assert!(hash.contains(dag.get_node(f)), "Node did not hash properly");
    assert!(hash.contains(dag.get_node(g)), "Node did not hash properly");
    assert!(hash.contains(dag.get_node(h)), "Node did not hash properly");
}

fn chain(len: usize) -> Dag<u32> {
    let mut dag = Dag::new();
    for i in 0..len {
        dag.add_node(i as u32);
    }
    for i in 1..len {
        dag.connect(i - 1, i);
    }
    dag
}

fn position(order: &Vec<usize>, id: usize) -> usize {
    order.iter().position(|x| *x == id).unwrap()
}

#[test]
fn node_accessors() {
    let mut node = Node::new(7, 'x');
    assert_eq!(*node.get_id(), 7);
    assert_eq!(*node.get_value(), 'x');
    *node.get_mut_value() = 'y';
    assert_eq!(*node.get_value(), 'y');
    assert_eq!(*node.get_id(), 7);
}

#[test]
fn nodes_compare_by_value_only() {
    let left = Node::new(1, 'v');
    let right = Node::new(2, 'v');
    let other = Node::new(1, 'w');
    assert!(left == right);
    assert!(left != other);
}

#[test]
fn node_ids_follow_insertion() {
    let mut dag = Dag::new();
    assert_eq!(dag.get_num_nodes(), 0);
    assert_eq!(dag.add_node('a'), 0);
    assert_eq!(dag.add_node('b'), 1);
    assert_eq!(dag.add_node('c'), 2);
    assert_eq!(dag.get_num_nodes(), 3);
    assert_eq!(*dag.get_node(1).get_id(), 1);
    assert_eq!(*dag.get_node(1).get_value(), 'b');
    *dag.get_mut_node(2).get_mut_value() = 'z';
    assert_eq!(*dag.get_node(2).get_value(), 'z');
    let seen: Vec<char> = dag.iter_nodes().map(|n| *n.get_value()).collect();
    assert_eq!(seen, vec!['a', 'b', 'z']);
}

#[test]
fn connect_records_the_dependency() {
    let mut dag = chain(3);
    dag.connect(0, 2);
    assert!(dag.get_dependencies(&0).is_empty());
    assert_eq!(dag.get_dependencies(&1).len(), 1);
    assert!(dag.get_dependencies(&1).contains(&0));
    assert_eq!(dag.get_dependencies(&2).len(), 2);
    assert!(dag.get_dependencies(&2).contains(&0));
    assert!(dag.get_dependencies(&2).contains(&1));
}

#[test]
fn empty_graph_has_no_roots() {
    let dag: Dag<u32> = Dag::new();
    assert_eq!(dag.build_bfs().err(), Some(DagError::NoRoots));
    assert_eq!(dag.bfs_order().err(), Some(DagError::NoRoots));
}

#[test]
fn graph_of_cycles_only_has_no_roots() {
    let mut dag = chain(2);
    dag.connect(1, 0);
    assert_eq!(dag.build_bfs().err(), Some(DagError::NoRoots));
}

#[test]
fn self_loop_without_root_has_no_roots() {
    let mut dag = chain(1);
    dag.connect(0, 0);
    assert_eq!(dag.build_bfs().err(), Some(DagError::NoRoots));
}

#[test]
fn cycle_below_a_root_is_detected() {
    let mut dag = chain(4);
    dag.connect(3, 1);
    assert_eq!(dag.build_bfs().err(), Some(DagError::CycleDetected));
    assert_eq!(dag.bfs_order().err(), Some(DagError::CycleDetected));
}

#[test]
fn cycle_apart_from_every_root_is_detected() {
    let mut dag = chain(1);
    let a = dag.add_node(10);
    let b = dag.add_node(11);
    dag.connect(a, b);
    dag.connect(b, a);
    assert_eq!(dag.build_bfs().err(), Some(DagError::CycleDetected));
}

#[test]
fn self_loop_beside_a_root_is_detected() {
    let mut dag = chain(2);
    dag.connect(1, 1);
    assert_eq!(dag.build_bfs().err(), Some(DagError::CycleDetected));
}

#[test]
fn error_messages() {
    assert_eq!(DagError::NoRoots.message(), "No roots found. DAG is invalid!");
    assert_eq!(DagError::CycleDetected.message(), "Invalid DAG detected");
}

#[test]
fn frontier_starts_with_the_sources() {
    let mut dag = chain(3);
    let lone = dag.add_node(9);
    let bfs = dag.build_bfs().unwrap();
    let roots: HashSet<usize> = bfs.get_roots().clone();
    let expected: HashSet<usize> = [0, lone].into_iter().collect();
    assert_eq!(roots, expected);
    assert!(bfs.get_dependants(&0).contains(&1));
    assert!(bfs.get_dependants(&1).contains(&2));
    assert!(bfs.get_dependants(&2).is_empty());
    assert!(bfs.get_dependencies(&2).contains(&1));
}

#[test]
fn single_isolated_node_is_ready_at_once() {
    let dag = chain(1);
    let bfs = dag.build_bfs().unwrap();
    assert_eq!(bfs.get_next_root(), Some(&0));
    assert!(bfs.get_dependencies(&0).is_empty());
    assert_eq!(*dag.next_in_bfs(&bfs).unwrap().get_id(), 0);
    assert_eq!(dag.bfs_order(), Ok(vec![0]));
}

#[test]
fn visit_releases_the_consumers() {
    let mut dag = chain(2);
    let c = dag.add_node(5);
    dag.connect(0, c);
    dag.connect(1, c);
    let mut bfs = dag.build_bfs().unwrap();
    assert_eq!(bfs.get_next_root(), Some(&0));

    dag.visited_in_bfs(&mut bfs, dag.get_node(0));
    assert!(!bfs.get_roots().contains(&0));
    assert_eq!(bfs.get_next_root(), Some(&1));
    assert_eq!(bfs.get_dependencies(&c).len(), 1);

    dag.visited_in_bfs(&mut bfs, dag.get_node(1));
    assert_eq!(bfs.get_next_root(), Some(&c));
    assert!(bfs.get_dependencies(&c).is_empty());

    dag.visited_in_bfs(&mut bfs, dag.get_node(c));
    assert_eq!(bfs.get_next_root(), None);
    assert!(dag.next_in_bfs(&bfs).is_none());
}

#[test]
fn draining_visits_every_node_once() {
    let mut dag = Dag::new();
    for i in 0..8 {
        dag.add_node(i);
    }
    let edges = [(0, 1), (1, 2), (2, 3), (3, 4), (3, 5), (5, 6), (5, 7), (0, 7)];
    for (from, to) in edges {
        dag.connect(from, to);
    }
    let order = dag.bfs_order().unwrap();
    assert_eq!(order.len(), 8);
    let seen: HashSet<usize> = order.iter().copied().collect();
    assert_eq!(seen.len(), 8);
    for (from, to) in edges {
        assert!(position(&order, from) < position(&order, to));
    }
}

#[test]
fn draining_a_chain_follows_the_chain() {
    let dag = chain(5);
    assert_eq!(dag.bfs_order(), Ok(vec![0, 1, 2, 3, 4]));
}

#[test]
fn duplicate_edge_is_one_dependency() {
    let mut once = chain(2);
    let mut twice = chain(2);
    once.connect(0, 1);
    twice.connect(0, 1);
    twice.connect(0, 1);
    assert_eq!(twice.get_dependencies(&1).len(), 1);
    assert!(once == twice);

    let mut bfs = twice.build_bfs().unwrap();
    twice.visited_in_bfs(&mut bfs, twice.get_node(0));
    assert!(bfs.get_dependencies(&1).is_empty());
    assert_eq!(bfs.get_next_root(), Some(&1));
    assert_eq!(twice.bfs_order(), Ok(vec![0, 1]));
}
