use std::rc::Rc;
use tree_search::{PriorityState, PriorityTree, State, Tree};

/// A node of a small fixed graph.
#[derive(Hash, Clone, Copy, PartialEq, Eq, Debug)]
struct Node {
    id: u32,
}

fn node(id: u32) -> Rc<Node> {
    Rc::new(Node { id })
}

fn adjacency(id: u32) -> Vec<u32> {
    match id {
        // A diamond: 1 reaches 4 through 2 and through 3.
        1 => vec![2, 3],
        2 => vec![4, 1],
        3 => vec![4],
        4 => vec![5],
        // 10 has no neighbors.
        10 => vec![],
        // 20 is a goal whose neighbor leads back to it.
        20 => vec![21],
        21 => vec![20],
        // 30 offers two goals of equal priority, and a cheaper non-goal.
        30 => vec![31, 32, 33],
        33 => vec![34],
        // A longer and a shorter route to 49.
        40 => vec![41, 45],
        41 => vec![42],
        42 => vec![49],
        45 => vec![46],
        46 => vec![47],
        47 => vec![49],
        // A cycle without goals.
        60 => vec![61],
        61 => vec![62],
        62 => vec![60],
        _ => vec![],
    }
}

impl State for Node {
    fn neighbors(&self) -> Vec<Rc<Node>> {
        adjacency(self.id).into_iter().map(node).collect()
    }

    fn is_goal(&self) -> bool {
        matches!(self.id, 5 | 10 | 20 | 31 | 32 | 34 | 49)
    }
}

impl PriorityState for Node {
    fn priority(&self) -> usize {
        match self.id {
            31 | 32 => 5,
            33 => 1,
            34 => 9,
            45 | 46 | 47 => 0,
            _ => 3,
        }
    }
}

fn ids(path: &[Rc<Node>]) -> Vec<u32> {
    path.iter().map(|n| n.id).collect()
}

#[test]
fn dead_end_start_has_no_path() {
    assert!(Tree::new(node(11)).run().is_none());
    assert!(PriorityTree::new(node(11)).run().is_none());
}

#[test]
fn goal_start_without_cycle_is_not_reported() {
    // The start state is never goal-checked.
    assert!(Tree::new(node(10)).run().is_none());
    assert!(PriorityTree::new(node(10)).run().is_none());
}

#[test]
fn goal_start_on_a_cycle_is_not_reported() {
    // Coming back to the start is dropped as a duplicate.
    assert!(Tree::new(node(20)).run().is_none());
    assert!(PriorityTree::new(node(20)).run().is_none());
}

#[test]
fn cycle_without_goal_terminates() {
    assert!(Tree::new(node(60)).run().is_none());
    assert!(PriorityTree::new(node(60)).run().is_none());
}

#[test]
fn diamond_records_shared_state_once() {
    let path = Tree::new(node(1)).run().unwrap();
    assert_eq!(ids(&path), vec![1, 2, 4, 5]);
    let best = PriorityTree::new(node(1)).run().unwrap();
    assert_eq!(ids(&best), vec![1, 2, 4, 5]);
}

#[test]
fn bfs_finds_the_shorter_route() {
    let path = Tree::new(node(40)).run().unwrap();
    assert_eq!(ids(&path), vec![40, 41, 42, 49]);
}

#[test]
fn priority_follows_the_cheaper_route() {
    // Priorities favour the longer route through 45.
    let path = PriorityTree::new(node(40)).run().unwrap();
    assert_eq!(ids(&path), vec![40, 45, 46, 47, 49]);
}

#[test]
fn priority_uses_the_neighbor_priority_and_fifo_ties() {
    // 33 (priority 1) is expanded before the goals 31 and 32 (priority 5);
    // its goal 34 has priority 9, so 31, pushed before 32, is returned.
    let path = PriorityTree::new(node(30)).run().unwrap();
    assert_eq!(ids(&path), vec![30, 31]);
}

#[test]
fn bfs_returns_first_pushed_goal() {
    let path = Tree::new(node(30)).run().unwrap();
    assert_eq!(ids(&path), vec![30, 31]);
}

/// An unbounded line of states: each steps one or two ahead.
#[derive(Hash, Clone, Copy, PartialEq, Eq, Debug)]
struct Counter {
    n: u64,
}

impl State for Counter {
    fn neighbors(&self) -> Vec<Rc<Counter>> {
        vec![Rc::new(Counter { n: self.n + 1 }), Rc::new(Counter { n: self.n + 2 })]
    }

    fn is_goal(&self) -> bool {
        self.n == 7
    }
}

#[test]
fn bfs_ends_on_an_infinite_graph_with_a_goal() {
    let path = Tree::new(Rc::new(Counter { n: 0 })).run().unwrap();
    let ns: Vec<u64> = path.iter().map(|c| c.n).collect();
    assert_eq!(ns, vec![0, 1, 3, 5, 7]);
}
