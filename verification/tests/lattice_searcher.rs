use parattice::Lattice;
use parattice::LatticeSearcher;
use parattice::PaRattice;

fn sample() -> Lattice<'static> {
    let paradict = vec![
        vec![
            vec!["blood", "stem", "cell"],
            vec!["造血", "幹", "細胞"],
            vec!["hematopoietic", "stem", "cell"],
        ],
        vec![
            vec!["造血", "幹", "細胞", "移植"],
            vec!["hematopoietic", "stem", "cell", "transplantation"],
        ],
        vec![vec!["stem", "cell"], vec!["幹", "細胞"]],
        vec![
            vec!["幹", "細胞", "移植"],
            vec!["rescue", "transplant"],
            vec!["stem", "cell", "rescue"],
        ],
        vec![vec!["rescue"], vec!["救命"]],
        vec![vec!["blood"], vec!["血液"]],
    ];
    let parattice = PaRattice::new(paradict).unwrap();
    parattice.get_lattice(&["造血", "幹", "細胞", "移植"], true, 10)
}

/// Every path of the lattice that spells the pattern, found by trying every
/// start node.
fn all_paths<'a>(lattice: &Lattice<'a>, pattern: &[&str]) -> Vec<Vec<(&'a str, usize)>> {
    let mut out = vec![];
    for start in 0..lattice.size() {
        let mut partial: Vec<Vec<(&'a str, usize)>> = vec![vec![("", start)]];
        for token in pattern {
            let mut next = vec![];
            for path in &partial {
                for &edge in &lattice.node(path[path.len() - 1].1).forwards {
                    if edge.0 == *token {
                        let mut longer = path.clone();
                        longer.push(edge);
                        next.push(longer);
                    }
                }
            }
            partial = next;
        }
        out.extend(partial);
    }
    out
}

#[test]
fn one_phrase_is_found_as_by_the_single_search() {
    let lattice = sample();
    let searcher = LatticeSearcher::new(vec![vec!["幹", "細胞"]]);
    let mut results = searcher.search(&lattice);
    results.sort();
    results.dedup();
    let expected = vec![
        vec![("", 1), ("幹", 10), ("細胞", 15)],
        vec![("", 2), ("幹", 7), ("細胞", 13)],
        vec![("", 3), ("幹", 9), ("細胞", 13)],
        vec![("", 3), ("幹", 9), ("細胞", 14)],
        vec![("", 3), ("幹", 10), ("細胞", 15)],
    ];
    assert_eq!(expected, results);
}

#[test]
fn several_phrases_are_found_together() {
    let lattice = sample();
    let patterns = vec![
        vec!["幹", "細胞"],
        vec!["stem", "cell"],
        vec!["cell"],
        vec!["stem", "cell", "rescue"],
        vec!["missing"],
    ];
    let searcher = LatticeSearcher::new(patterns.clone());
    let mut results = searcher.search(&lattice);
    results.sort();
    results.dedup();
    let mut expected = vec![];
    for pattern in &patterns {
        expected.extend(all_paths(&lattice, pattern));
    }
    expected.sort();
    expected.dedup();
    assert_eq!(expected, results);
}

#[test]
fn no_phrases_find_nothing() {
    let lattice = sample();
    assert!(LatticeSearcher::new(vec![]).search(&lattice).is_empty());
}
