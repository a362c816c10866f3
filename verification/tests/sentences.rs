use parattice::Lattice;
use parattice::PaRattice;

/// Every sentence that the lattice spells from its first to its last node,
/// in order and without repeats.
fn sentences(lattice: &Lattice) -> Vec<Vec<String>> {
    let mut found: Vec<Vec<String>> = Vec::new();
    let mut stack: Vec<(usize, Vec<String>)> = vec![(0, Vec::new())];
    while let Some((node, spelled)) = stack.pop() {
        if node + 1 == lattice.size() {
            found.push(spelled);
            continue;
        }
        for &(token, target) in &lattice.node(node).forwards {
            let mut longer = spelled.clone();
            longer.push(token.to_string());
            stack.push((target, longer));
        }
    }
    found.sort();
    found.dedup();
    found
}

fn sentence(words: &[&str]) -> Vec<String> {
    words.iter().map(|w| w.to_string()).collect()
}

#[test]
fn the_lattice_spells_the_sentence_and_its_paraphrase() {
    let parattice = PaRattice::new(vec![vec![vec!["a", "b"], vec!["c"]]]).unwrap();
    for shrink in [false, true] {
        let lattice = parattice.get_lattice(&["x", "a", "b", "y"], shrink, 2);
        assert_eq!(
            vec![sentence(&["x", "a", "b", "y"]), sentence(&["x", "c", "y"])],
            sentences(&lattice)
        );
    }
}

#[test]
fn every_phrase_of_a_group_joins_the_same_nodes() {
    let parattice = PaRattice::new(vec![vec![
        vec!["a", "b"],
        vec!["c"],
        vec!["d", "e", "f"],
    ]])
    .unwrap();
    for shrink in [false, true] {
        let lattice = parattice.get_lattice(&["a", "b"], shrink, 1);
        assert_eq!(
            vec![sentence(&["a", "b"]), sentence(&["c"]), sentence(&["d", "e", "f"])],
            sentences(&lattice)
        );
    }
}

#[test]
fn a_paraphrase_of_a_paraphrase_is_spelled_at_depth_two() {
    let dict = vec![
        vec![vec!["a"], vec!["b", "c"]],
        vec![vec!["c"], vec!["d"]],
    ];
    let parattice = PaRattice::new(dict).unwrap();
    let shallow = parattice.get_lattice(&["a"], true, 1);
    assert_eq!(vec![sentence(&["a"]), sentence(&["b", "c"])], sentences(&shallow));
    let deep = parattice.get_lattice(&["a"], true, 2);
    assert_eq!(
        vec![sentence(&["a"]), sentence(&["b", "c"]), sentence(&["b", "d"])],
        sentences(&deep)
    );
}

#[test]
fn shrinking_keeps_the_sentences() {
    let dict = vec![vec![
        vec!["a", "u", "x"],
        vec!["a", "u", "y"],
        vec!["c", "x"],
        vec!["c", "y"],
    ]];
    let parattice = PaRattice::new(dict).unwrap();
    let plain = parattice.get_lattice(&["a", "u", "x"], false, 1);
    let shrunk = parattice.get_lattice(&["a", "u", "x"], true, 1);
    assert!(shrunk.size() < plain.size());
    assert_eq!(sentences(&plain), sentences(&shrunk));
    assert_eq!(
        vec![
            sentence(&["a", "u", "x"]),
            sentence(&["a", "u", "y"]),
            sentence(&["c", "x"]),
            sentence(&["c", "y"]),
        ],
        sentences(&plain)
    );
}

#[test]
fn a_one_word_paraphrase_is_an_edge_beside_the_phrase() {
    let parattice = PaRattice::new(vec![vec![vec!["a", "b"], vec!["c"]]]).unwrap();
    let lattice = parattice.get_lattice(&["a", "b"], false, 1);
    assert_eq!(3, lattice.size());
    assert_eq!(3, lattice.capacity());
    assert_eq!(vec![("a", 1), ("c", 2)], lattice.node(0).forwards);
    assert_eq!(vec![("b", 2)], lattice.node(1).forwards);
    assert_eq!(vec![("b", 1), ("c", 0)], lattice.node(2).backwards);
    assert_eq!(Some(("a", 1)), lattice.node(0).forward_main);
}

#[test]
fn the_seed_lattices_have_their_sizes_and_trunks() {
    let dict = vec![
        vec![vec!["blood", "stem", "cell"], vec!["造血", "幹", "細胞"], vec!["hematopoietic", "stem", "cell"]],
        vec![vec!["造血", "幹", "細胞", "移植"], vec!["hematopoietic", "stem", "cell", "transplantation"]],
        vec![vec!["stem", "cell"], vec!["幹", "細胞"]],
        vec![vec!["幹", "細胞", "移植"], vec!["rescue", "transplant"], vec!["stem", "cell", "rescue"]],
        vec![vec!["rescue"], vec!["救命"]],
        vec![vec!["blood"], vec!["血液"]],
    ];
    let parattice = PaRattice::new(dict).unwrap();
    let words = ["造血", "幹", "細胞", "移植"];
    let deep = parattice.get_lattice(&words, true, 10);
    assert_eq!(17, deep.size());
    assert_eq!(32, deep.capacity());
    let trunk: Vec<usize> = (0..deep.size()).filter(|&i| deep.trunk_position(i).is_some()).collect();
    assert_eq!(vec![0, 3, 9, 13, 16], trunk);
    let shallow = parattice.get_lattice(&words, true, 1);
    assert_eq!(13, shallow.size());
    assert_eq!(18, shallow.capacity());
    let trunk: Vec<usize> =
        (0..shallow.size()).filter(|&i| shallow.trunk_position(i).is_some()).collect();
    assert_eq!(vec![0, 3, 8, 11, 12], trunk);
}
