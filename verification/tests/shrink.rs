use parattice::shrink::shrink_lattice;
use parattice::LatticeNode;
use parattice::PaRattice;

fn node<'a>(
    forwards: &[(&'a str, usize)],
    backwards: &[(&'a str, usize)],
    depth: usize,
) -> LatticeNode<'a> {
    let mut node = LatticeNode::new(forwards.first().copied(), backwards.first().copied(), depth);
    for &(token, target) in forwards {
        node.insert_forward(token, target);
    }
    for &(token, source) in backwards {
        node.insert_backward(token, source);
    }
    node
}

/// The sentence a u x with the branches a u y, c x and c y from its first to
/// its last node.
fn branches<'a>() -> Vec<LatticeNode<'a>> {
    vec![
        node(&[("a", 1), ("a", 4), ("c", 6), ("c", 7)], &[], 0),
        node(&[("u", 2)], &[("a", 0)], 0),
        node(&[("x", 3)], &[("u", 1)], 0),
        node(&[], &[("x", 2), ("y", 5), ("x", 6), ("y", 7)], 0),
        node(&[("u", 5)], &[("a", 0)], 1),
        node(&[("y", 3)], &[("u", 4)], 1),
        node(&[("x", 3)], &[("c", 0)], 1),
        node(&[("y", 3)], &[("c", 0)], 1),
    ]
}

#[test]
fn nodes_with_the_same_edges_are_merged() {
    let mut lattice = branches();
    shrink_lattice(&mut lattice);
    assert_eq!(8, lattice.len());
    assert_eq!(vec![("a", 1), ("c", 2)], lattice[0].forwards);
    assert_eq!(vec![("u", 2)], lattice[1].forwards);
    assert_eq!(vec![("x", 3), ("y", 3)], lattice[2].forwards);
    assert_eq!(vec![("c", 0), ("u", 1)], lattice[2].backwards);
    assert_eq!(vec![("x", 2), ("y", 2)], lattice[3].backwards);
    for merged in [4, 5, 6, 7] {
        assert!(lattice[merged].forwards.is_empty());
        assert!(lattice[merged].backwards.is_empty());
    }
}

#[test]
fn no_two_nodes_are_left_with_the_same_edges() {
    let mut lattice = branches();
    shrink_lattice(&mut lattice);
    for i in 0..lattice.len() {
        for j in 0..i {
            if !lattice[i].forwards.is_empty() {
                assert_ne!(lattice[i].forwards, lattice[j].forwards);
            }
            if !lattice[i].backwards.is_empty() {
                assert_ne!(lattice[i].backwards, lattice[j].backwards);
            }
        }
    }
}

#[test]
fn a_second_run_changes_nothing() {
    let mut once = branches();
    shrink_lattice(&mut once);
    let mut twice = branches();
    shrink_lattice(&mut twice);
    shrink_lattice(&mut twice);
    assert_eq!(once, twice);
}

#[test]
fn the_edges_get_no_more() {
    let before: usize = branches().iter().map(|n| n.forwards.len()).sum();
    let mut lattice = branches();
    shrink_lattice(&mut lattice);
    let after: usize = lattice.iter().map(|n| n.forwards.len()).sum();
    assert_eq!(10, before);
    assert_eq!(5, after);
}

#[test]
fn a_graph_without_equal_edge_sets_is_left_as_it_is() {
    let mut chain = vec![
        node(&[("a", 1)], &[], 0),
        node(&[("b", 2)], &[("a", 0)], 0),
        node(&[("a", 3)], &[("b", 1)], 0),
        node(&[], &[("a", 2)], 0),
    ];
    shrink_lattice(&mut chain);
    let expected = vec![
        node(&[("a", 1)], &[], 0),
        node(&[("b", 2)], &[("a", 0)], 0),
        node(&[("a", 3)], &[("b", 1)], 0),
        node(&[], &[("a", 2)], 0),
    ];
    assert_eq!(expected, chain);
}

#[test]
fn the_lattice_of_the_branches() {
    let parattice = PaRattice::new(vec![vec![
        vec!["a", "u", "x"],
        vec!["a", "u", "y"],
        vec!["c", "x"],
        vec!["c", "y"],
    ]])
    .unwrap();
    let plain = parattice.get_lattice(&["a", "u", "x"], false, 1);
    let shrunk = parattice.get_lattice(&["a", "u", "x"], true, 1);
    assert_eq!(8, plain.size());
    assert_eq!(4, shrunk.size());
    assert_eq!(vec![("a", 1), ("c", 2)], shrunk.node(0).forwards);
    assert_eq!(vec![("u", 2)], shrunk.node(1).forwards);
    assert_eq!(vec![("x", 3), ("y", 3)], shrunk.node(2).forwards);
    assert_eq!(5, shrunk.capacity());
}
