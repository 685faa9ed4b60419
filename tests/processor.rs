use synth_core::dsp::processor::{find_remove, has_duplicates, permute, AudioGraph, AudioGraphNode, Edge};

fn ids(graph: &AudioGraph<char, u32>) -> Vec<char> {
    graph.nodes().iter().map(|n| *n.id()).collect()
}

fn graph_of(names: &[char]) -> AudioGraph<char, u32> {
    let mut graph: AudioGraph<char, u32> = AudioGraph::default();
    for (i, &c) in names.iter().enumerate() {
        graph.top_level_insert(c, i as u32);
    }
    graph
}

#[test]
fn feedback_ordering() {
    let mut graph = graph_of(&['A', 'B', 'C']);
    assert!(graph.connect(&'A', &'B').is_some());
    assert!(graph.connect(&'B', &'C').is_some());
    let third = graph.connect(&'C', &'A');
    assert_eq!(third, Some(vec![0, 1, 2]));
    assert_eq!(ids(&graph), vec!['A', 'B', 'C']);
    assert_eq!(graph.nodes()[0].edges(), &[Edge::Normal(1)]);
    assert_eq!(graph.nodes()[1].edges(), &[Edge::Normal(2)]);
    assert_eq!(graph.nodes()[2].edges(), &[Edge::Feedback(0)]);
}

#[test]
fn connect_refuses_duplicate() {
    let mut graph = graph_of(&['A', 'B']);
    assert!(graph.connect(&'A', &'B').is_some());
    assert_eq!(graph.connect(&'A', &'B'), None);
    let a = graph.find_node(&'A');
    assert_eq!(graph.nodes()[a].edges().len(), 1);
}

#[test]
fn connect_returns_permutation_and_rewrites_edges() {
    // Insertion at the top puts C, B, A in that order.
    let mut graph = graph_of(&['A', 'B', 'C']);
    assert_eq!(ids(&graph), vec!['C', 'B', 'A']);
    let perm = graph.connect(&'A', &'C').unwrap();
    let mut sorted = perm.clone();
    sorted.sort();
    assert_eq!(sorted, vec![0, 1, 2]);
    let a = graph.find_node(&'A');
    let c = graph.find_node(&'C');
    assert!(a < c);
    assert_eq!(graph.nodes()[a].edges(), &[Edge::Normal(c)]);
    // Payloads move with their nodes.
    assert_eq!(graph.nodes()[a].data, 0);
    assert_eq!(graph.nodes()[c].data, 2);
}

#[test]
fn normal_edges_always_lead_forward() {
    let mut graph = graph_of(&['A', 'B', 'C', 'D']);
    for (x, y) in [('D', 'A'), ('A', 'C'), ('C', 'B'), ('B', 'D'), ('C', 'D'), ('B', 'A')] {
        graph.connect(&x, &y);
        for (u, node) in graph.nodes().iter().enumerate() {
            for edge in node.edges() {
                match edge {
                    Edge::Normal(t) => assert!(u < *t),
                    Edge::Feedback(t) => assert!(*t <= u),
                }
            }
        }
    }
    // The edge that closed a cycle was kept as feedback.
    let b = graph.find_node(&'B');
    let d = graph.find_node(&'D');
    assert!(graph.nodes()[b].edges().contains(&Edge::Feedback(d)));
}

#[test]
fn self_loop_becomes_feedback() {
    let mut graph = graph_of(&['A']);
    assert_eq!(graph.connect(&'A', &'A'), Some(vec![0]));
    assert_eq!(graph[0].edges(), &[Edge::Feedback(0)]);
}

#[test]
fn top_level_insert_shifts_edges() {
    let mut graph = graph_of(&['A', 'B']);
    graph.connect(&'B', &'A');
    assert_eq!(graph.nodes()[0].edges(), &[Edge::Normal(1)]);
    graph.top_level_insert('C', 7);
    assert_eq!(ids(&graph), vec!['C', 'B', 'A']);
    assert_eq!(graph.nodes()[1].edges(), &[Edge::Normal(2)]);
    assert_eq!(graph.nodes()[0].edges(), &[]);
}

#[test]
fn find_node_by_id() {
    let graph = graph_of(&['A', 'B', 'C']);
    assert_eq!(graph.find_node(&'A'), 2);
    assert_eq!(graph.find_node(&'C'), 0);
}

#[test]
fn node_accessors() {
    let node: AudioGraphNode<&str, i32> = AudioGraphNode::new("osc", 3);
    assert_eq!(*node.id(), "osc");
    assert_eq!(node.data, 3);
    assert!(node.edges().is_empty());
}

#[test]
fn set_as_feedback_keeps_target() {
    let mut e = Edge::Normal(4);
    e.set_as_feedback();
    assert_eq!(e, Edge::Feedback(4));
}

#[test]
fn find_remove_removes_first_match() {
    let mut v = vec![3, 1, 4, 1, 5];
    find_remove(&mut v, &1);
    assert_eq!(v, vec![3, 4, 1, 5]);
}

#[test]
fn has_duplicates_detects_repeats() {
    assert!(has_duplicates(&[1, 2, 3, 2]));
    assert!(!has_duplicates(&[1, 2, 3]));
    assert!(!has_duplicates::<u8>(&[]));
}

#[test]
fn permute_follows_cycles() {
    let mut items = vec!['a', 'b', 'c'];
    let mut indices = vec![2, 0, 1];
    permute(&mut items, &mut indices);
    assert_eq!(items, vec!['c', 'a', 'b']);
    assert_eq!(indices, vec![0, 1, 2]);
}

#[test]
fn permute_two_cycles() {
    let mut items = vec![10, 20, 30, 40, 50];
    let mut indices = vec![1, 0, 4, 2, 3];
    permute(&mut items, &mut indices);
    assert_eq!(items, vec![20, 10, 50, 30, 40]);
}

#[test]
fn permutation_fixup() {
    // Insertion happens at the top, so inserting Z, Y, X leaves X, Y, Z at
    // indices 0, 1, 2.
    let mut graph = graph_of(&['Z', 'Y', 'X']);
    assert_eq!(ids(&graph), vec!['X', 'Y', 'Z']);
    let perm = graph.connect(&'Z', &'X').expect("a new acyclic edge is added");
    assert_eq!(perm, vec![2, 0, 1]);
    // Z now comes before X.
    assert_eq!(ids(&graph), vec!['Z', 'X', 'Y']);
    assert_eq!(graph[0].edges(), &[Edge::Normal(1)]);
    // The user's indices translate through the permutation.
    let new_index = |old: usize| perm.iter().position(|&p| p == old).unwrap();
    assert_eq!(new_index(2), 0);
    assert_eq!(new_index(0), 1);
    assert_eq!(new_index(1), 2);
    assert_eq!(*graph[new_index(1)].id(), 'Y');
    // A later connect still reaches the same nodes.
    let perm2 = graph.connect(&'Y', &'Z').expect("acyclic");
    let pos = |id: char| graph.find_node(&id);
    assert_eq!(perm2.len(), 3);
    assert!(pos('Y') < pos('Z'));
    assert!(pos('Z') < pos('X'));
}
