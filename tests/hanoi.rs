use std::rc::Rc;
use tree_search::{PriorityState, PriorityTree, State, Tree};

#[derive(Hash, Clone, PartialEq, Eq, Debug)]
struct Towers {
    pegs: Vec<Vec<usize>>,
}

impl Towers {
    fn new(pegs: usize, discs: usize) -> Towers {
        let mut result = Towers { pegs: Vec::new() };
        result.pegs.push((0..discs).collect::<Vec<usize>>());
        for _ in 1..pegs {
            result.pegs.push(Vec::new());
        }
        result
    }

    fn move_disc(&self, from: usize, to: usize) -> Option<Towers> {
        if from == to
            || from >= self.pegs.len()
            || to >= self.pegs.len()
            || self.pegs[from].is_empty()
            || (!self.pegs[to].is_empty()
                && self.pegs[from].last().unwrap() < self.pegs[to].last().unwrap())
        {
            return None;
        }
        let mut result = self.clone();
        let moved = result.pegs[from].pop().unwrap();
        result.pegs[to].push(moved);
        Some(result)
    }
}

impl State for Towers {
    fn neighbors(&self) -> Vec<Rc<Towers>> {
        let mut result = Vec::new();
        for i in 0..self.pegs.len() {
            for j in 0..self.pegs.len() {
                if let Some(neighbor) = self.move_disc(i, j) {
                    result.push(Rc::new(neighbor));
                }
            }
        }
        result
    }

    fn is_goal(&self) -> bool {
        for i in 0..(self.pegs.len() - 1) {
            if !self.pegs[i].is_empty() {
                return false;
            }
        }
        true
    }
}

impl PriorityState for Towers {
    fn priority(&self) -> usize {
        self.pegs[0].len()
    }
}

fn hanoi_len(pegs: usize, discs: usize) -> usize {
    let start = Towers::new(pegs, discs);
    let mut tree = Tree::new(Rc::new(start));
    if let Some(solution) = tree.run() {
        return solution.len() - 1;
    }
    0
}

fn hanoi_priority_len(pegs: usize, discs: usize) -> usize {
    let start = Towers::new(pegs, discs);
    let mut tree = PriorityTree::new(Rc::new(start));
    if let Some(solution) = tree.run() {
        return solution.len() - 1;
    }
    0
}

#[test]
fn test_hanoi() {
    for d in 1..14 {
        let moves = hanoi_len(3, d);
        assert_eq!(2usize.pow(d as u32) - 1, moves);
    }
}

#[test]
fn test_hanoi_priority() {
    for d in 1..14 {
        let moves = hanoi_priority_len(3, d);
        assert!(2usize.pow(d as u32) - 1 <= moves);
    }
}

fn assert_well_formed(start: &Towers, path: &[Rc<Towers>]) {
    assert_eq!(**path.first().unwrap(), *start);
    assert!(path.last().unwrap().is_goal());
    for w in path.windows(2) {
        assert!(w[0].neighbors().iter().any(|n| **n == *w[1]));
    }
    for i in 0..path.len() {
        for j in (i + 1)..path.len() {
            assert_ne!(path[i], path[j]);
        }
    }
}

#[test]
fn hanoi_paths_are_well_formed() {
    let start = Towers::new(3, 4);
    let bfs = Tree::new(Rc::new(start.clone())).run().unwrap();
    assert_eq!(bfs.len(), 16);
    assert_well_formed(&start, &bfs);
    let best = PriorityTree::new(Rc::new(start.clone())).run().unwrap();
    assert!(best.len() >= 16);
    assert_well_formed(&start, &best);
}

#[test]
fn hanoi_runs_are_deterministic() {
    let start = Towers::new(3, 5);
    let a = Tree::new(Rc::new(start.clone())).run().unwrap();
    let b = Tree::new(Rc::new(start.clone())).run().unwrap();
    assert_eq!(a, b);
    let c = PriorityTree::new(Rc::new(start.clone())).run().unwrap();
    let d = PriorityTree::new(Rc::new(start.clone())).run().unwrap();
    assert_eq!(c, d);
}

#[test]
fn hanoi_four_pegs_is_shorter() {
    // With a fourth peg three discs need five moves.
    assert_eq!(hanoi_len(4, 3), 5);
}
