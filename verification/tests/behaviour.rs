use parattice::edge::{compare_edges, edges_insert, edges_remove};
use parattice::token::{compare_tokens, token_eq, Order};
use parattice::Error;
use parattice::Lattice;
use parattice::LatticeKMP;
use parattice::LatticeNode;
use parattice::PaRattice;

fn paradict() -> Vec<Vec<Vec<&'static str>>> {
    vec![
        vec![
            vec!["blood", "stem", "cell"],
            vec!["造血", "幹", "細胞"],
            vec!["hematopoietic", "stem", "cell"],
        ],
        vec![
            vec!["造血", "幹", "細胞", "移植"],
            vec!["hematopoietic", "stem", "cell", "transplantation"],
        ],
        vec![vec!["stem", "cell"], vec!["幹", "細胞"]],
        vec![
            vec!["幹", "細胞", "移植"],
            vec!["rescue", "transplant"],
            vec!["stem", "cell", "rescue"],
        ],
        vec![vec!["rescue"], vec!["救命"]],
        vec![vec!["blood"], vec!["血液"]],
    ]
}

fn words() -> Vec<&'static str> {
    vec!["造血", "幹", "細胞", "移植"]
}

fn lattices() -> Vec<Lattice<'static>> {
    let parattice = PaRattice::new(paradict()).unwrap();
    let mut out = vec![];
    for shrink in [false, true] {
        for max_depth in [0, 1, 2, 3, 10] {
            out.push(parattice.get_lattice(&words(), shrink, max_depth));
        }
    }
    out
}

#[test]
fn tokens_are_ordered_by_their_bytes() {
    assert_eq!(Order::Less, compare_tokens("a", "b"));
    assert_eq!(Order::Greater, compare_tokens("b", "a"));
    assert_eq!(Order::Equal, compare_tokens("stem", "stem"));
    assert_eq!(Order::Less, compare_tokens("", "a"));
    assert_eq!(Order::Less, compare_tokens("cell", "cells"));
    assert_eq!(Order::Less, compare_tokens("stem", "幹"));
    assert_eq!(Order::Less, compare_tokens("幹", "細胞"));
    assert_eq!(Order::Greater, compare_tokens("造血", "移植"));
    assert!(token_eq("細胞", "細胞"));
    assert!(!token_eq("細胞", "細"));
}

#[test]
fn token_order_is_that_of_str() {
    let tokens = ["", "a", "ab", "b", "stem", "cell", "幹", "細胞", "造血", "移植", "救命", "é", "z"];
    for a in tokens {
        for b in tokens {
            let expected = match a.cmp(b) {
                std::cmp::Ordering::Less => Order::Less,
                std::cmp::Ordering::Equal => Order::Equal,
                std::cmp::Ordering::Greater => Order::Greater,
            };
            assert_eq!(expected, compare_tokens(a, b));
        }
    }
}

#[test]
fn edges_are_ordered_by_token_then_node() {
    assert_eq!(Order::Less, compare_edges(("a", 5), ("b", 1)));
    assert_eq!(Order::Less, compare_edges(("a", 1), ("a", 2)));
    assert_eq!(Order::Equal, compare_edges(("a", 2), ("a", 2)));
    assert_eq!(Order::Greater, compare_edges(("b", 0), ("a", 9)));
}

#[test]
fn edge_sets_stay_in_order_without_repeats() {
    let mut set: Vec<(&str, usize)> = vec![];
    assert!(edges_insert(&mut set, ("b", 1)));
    assert!(edges_insert(&mut set, ("a", 2)));
    assert!(edges_insert(&mut set, ("a", 1)));
    assert!(!edges_insert(&mut set, ("a", 2)));
    assert_eq!(vec![("a", 1), ("a", 2), ("b", 1)], set);
    assert!(edges_remove(&mut set, ("a", 2)));
    assert!(!edges_remove(&mut set, ("a", 2)));
    assert_eq!(vec![("a", 1), ("b", 1)], set);
}

#[test]
fn a_new_node_holds_its_main_edges() {
    let node = LatticeNode::new(Some(("a", 1)), Some(("b", 0)), 3);
    assert_eq!(vec![("a", 1)], node.forwards);
    assert_eq!(vec![("b", 0)], node.backwards);
    assert_eq!(Some(("a", 1)), node.forward_main);
    assert_eq!(Some(("b", 0)), node.backward_main);
    assert_eq!(3, node.depth);
    let node = LatticeNode::new(None, None, 0);
    assert!(node.forwards.is_empty());
    assert!(node.backwards.is_empty());
}

#[test]
fn inserting_an_edge_twice_changes_nothing() {
    let mut node = LatticeNode::new(Some(("b", 2)), None, 0);
    node.insert_forward("a", 3);
    node.insert_forward("a", 3);
    node.insert_forward("b", 2);
    node.insert_backward("c", 0);
    node.insert_backward("c", 0);
    assert_eq!(vec![("a", 3), ("b", 2)], node.forwards);
    assert_eq!(vec![("c", 0)], node.backwards);
    assert_eq!(Some(("b", 2)), node.forward_main);
    assert_eq!(None, node.backward_main);
}

#[test]
fn an_empty_group_is_refused() {
    assert!(matches!(PaRattice::new(vec![vec![]]), Err(Error::MalformedDictionary)));
    assert!(matches!(
        PaRattice::new(vec![vec![vec!["a"]], vec![]]),
        Err(Error::MalformedDictionary)
    ));
}

#[test]
fn an_empty_phrase_is_refused() {
    assert!(matches!(PaRattice::new(vec![vec![vec![]]]), Err(Error::MalformedDictionary)));
    assert!(matches!(
        PaRattice::new(vec![vec![vec!["a"], vec![]]]),
        Err(Error::MalformedDictionary)
    ));
}

#[test]
fn an_empty_dictionary_is_accepted() {
    assert!(PaRattice::new(vec![]).is_ok());
}

#[test]
fn an_empty_sentence_gives_one_node() {
    let parattice = PaRattice::new(paradict()).unwrap();
    let lattice = parattice.get_lattice(&[], true, 10);
    assert_eq!(1, lattice.size());
    assert_eq!(0, lattice.capacity());
    assert!(lattice.node(0).forwards.is_empty());
    assert!(lattice.node(0).backwards.is_empty());
    assert_eq!(None, lattice.node(0).forward_main);
    assert_eq!(vec![(0, 0)], lattice.get_trunk_spans());
    assert!(lattice.dump_for_search_index().is_empty());
}

#[test]
fn depth_zero_gives_the_chain() {
    let parattice = PaRattice::new(paradict()).unwrap();
    for shrink in [false, true] {
        let lattice = parattice.get_lattice(&words(), shrink, 0);
        assert_eq!(5, lattice.size());
        assert_eq!(4, lattice.capacity());
        for i in 0..4 {
            assert_eq!(vec![(words()[i], i + 1)], lattice.node(i).forwards);
            assert_eq!(vec![(words()[i], i)], lattice.node(i + 1).backwards);
            assert_eq!(Some((words()[i], i + 1)), lattice.node(i).forward_main);
            assert_eq!(Some((words()[i], i)), lattice.node(i + 1).backward_main);
        }
        assert!(lattice.node(4).forwards.is_empty());
        assert!(lattice.node(0).backwards.is_empty());
    }
}

#[test]
fn a_sentence_without_matches_gives_the_chain() {
    let parattice = PaRattice::new(paradict()).unwrap();
    let lattice = parattice.get_lattice(&["no", "such", "phrase"], true, 10);
    assert_eq!(parattice.get_lattice(&["no", "such", "phrase"], true, 0), lattice);
}

#[test]
fn a_paraphrase_is_attached() {
    let parattice = PaRattice::new(vec![vec![vec!["b"], vec!["x", "y"]]]).unwrap();
    let lattice = parattice.get_lattice(&["a", "b", "c"], false, 1);
    assert_eq!(5, lattice.size());
    assert_eq!(vec![("a", 1)], lattice.node(0).forwards);
    assert_eq!(vec![("b", 3), ("x", 2)], lattice.node(1).forwards);
    assert_eq!(vec![("y", 3)], lattice.node(2).forwards);
    assert_eq!(vec![("c", 4)], lattice.node(3).forwards);
    assert_eq!(Some(("b", 3)), lattice.node(1).forward_main);
    assert_eq!(Some(("b", 1)), lattice.node(3).backward_main);
    assert_eq!(Some(("x", 1)), lattice.node(2).backward_main);
    assert_eq!(vec![(0, 0), (1, 1), (1, 2), (2, 2), (3, 3)], lattice.get_trunk_spans());
}

#[test]
fn a_phrase_is_not_substituted_for_itself() {
    let parattice = PaRattice::new(vec![vec![vec!["b"], vec!["c"]]]).unwrap();
    let lattice = parattice.get_lattice(&["b"], true, 5);
    assert_eq!(2, lattice.size());
    assert_eq!(vec![("b", 1), ("c", 1)], lattice.node(0).forwards);
}

#[test]
fn depth_bounds_the_substitutions() {
    // a -> b c, and b -> d e: the second needs depth 2
    let parattice =
        PaRattice::new(vec![vec![vec!["a"], vec!["b", "c"]], vec![vec!["b"], vec!["d", "e"]]])
            .unwrap();
    let one = parattice.get_lattice(&["a"], false, 1);
    let two = parattice.get_lattice(&["a"], false, 2);
    assert_eq!(3, one.size());
    assert_eq!(4, two.size());
    assert_eq!(3, one.capacity());
    assert_eq!(5, two.capacity());
}

#[test]
fn shrinking_merges_nodes_with_the_same_edges() {
    // x y and x z share their first edge
    let parattice =
        PaRattice::new(vec![vec![vec!["a"], vec!["x", "y"], vec!["x", "z"]]]).unwrap();
    let plain = parattice.get_lattice(&["a"], false, 1);
    let shrunk = parattice.get_lattice(&["a"], true, 1);
    assert_eq!(4, plain.size());
    assert_eq!(3, shrunk.size());
    assert_eq!(vec![("a", 2), ("x", 1)], shrunk.node(0).forwards);
    assert_eq!(vec![("y", 2), ("z", 2)], shrunk.node(1).forwards);
}

#[test]
fn edges_lead_to_later_nodes_and_are_held_at_both_ends() {
    for lattice in lattices() {
        for i in 0..lattice.size() {
            let node = lattice.node(i);
            assert_eq!(0, node.depth);
            for &(token, j) in &node.forwards {
                assert!(i < j && j < lattice.size());
                assert!(lattice.node(j).backwards.contains(&(token, i)));
            }
            for &(token, j) in &node.backwards {
                assert!(j < i);
                assert!(lattice.node(j).forwards.contains(&(token, i)));
            }
            match node.forward_main {
                Some(edge) => assert!(node.forwards.contains(&edge)),
                None => assert!(node.forwards.is_empty()),
            }
            match node.backward_main {
                Some(edge) => assert!(node.backwards.contains(&edge)),
                None => assert!(node.backwards.is_empty()),
            }
            assert_eq!(i == 0, node.backwards.is_empty());
            assert_eq!(i + 1 == lattice.size(), node.forwards.is_empty());
        }
    }
}

#[test]
fn the_trunk_spells_the_sentence() {
    for lattice in lattices() {
        let mut node = 0;
        let mut spelled = vec![];
        let mut place = 0;
        assert_eq!(Some(place), lattice.trunk_position(node));
        while let Some((token, next)) = lattice.node(node).forward_main {
            spelled.push(token);
            node = next;
            place += 1;
            assert_eq!(Some(place), lattice.trunk_position(node));
        }
        assert_eq!(words(), spelled);
        assert_eq!(lattice.size() - 1, node);
        let on_trunk = (0..lattice.size()).filter(|&i| lattice.trunk_position(i).is_some()).count();
        assert_eq!(5, on_trunk);
    }
}

#[test]
fn the_edge_count_is_the_sum_of_the_outgoing_edges() {
    for lattice in lattices() {
        let sum: usize = (0..lattice.size()).map(|i| lattice.node(i).forwards.len()).sum();
        assert_eq!(sum, lattice.capacity());
    }
}

#[test]
fn encoding_and_decoding_give_the_lattice_back() {
    for lattice in lattices() {
        let bytes = lattice.to_bytes();
        assert_eq!(Ok(bytes.len()), Lattice::new_from_bytes(&bytes).map(|l| l.to_bytes().len()));
        assert_eq!(lattice, Lattice::new_from_bytes(&bytes).unwrap());
    }
}

#[test]
fn spans_begin_no_later_than_they_end() {
    for lattice in lattices() {
        let spans = lattice.get_trunk_spans();
        assert_eq!(lattice.size(), spans.len());
        for i in 0..lattice.size() {
            assert!(spans[i].0 <= spans[i].1);
            if let Some(place) = lattice.trunk_position(i) {
                assert_eq!((place, place), spans[i]);
            }
        }
    }
}

#[test]
fn trunk_spans_of_the_sample() {
    let parattice = PaRattice::new(paradict()).unwrap();
    let lattice = parattice.get_lattice(&words(), true, 1);
    let expected = vec![
        (0, 0), (0, 3), (0, 3), (1, 1), (0, 3), (0, 4), (1, 4),
        (1, 3), (2, 2), (0, 4), (1, 4), (3, 3), (4, 4),
    ];
    assert_eq!(expected, lattice.get_trunk_spans());
}

#[test]
fn a_projected_path_begins_and_ends_on_the_trunk() {
    for lattice in lattices() {
        for i in 0..lattice.size() {
            for &edge in &lattice.node(i).forwards {
                let span = lattice.get_trunk_span(vec![("", i), edge]).unwrap();
                assert_eq!("", span[0].0);
                assert!(lattice.trunk_position(span[0].1).is_some());
                assert!(lattice.trunk_position(span[span.len() - 1].1).is_some());
                for k in 1..span.len() {
                    assert!(lattice.node(span[k - 1].1).forwards.contains(&span[k]));
                }
                assert!(span.windows(2).any(|w| w[0].1 == i && w[1] == edge));
            }
            let span = lattice.get_trunk_span(vec![("", i)]).unwrap();
            assert!(span.iter().any(|e| e.1 == i));
        }
    }
}

#[test]
fn a_path_on_the_trunk_is_its_own_span() {
    let parattice = PaRattice::new(paradict()).unwrap();
    let lattice = parattice.get_lattice(&words(), true, 10);
    assert_eq!(vec![("", 0)], lattice.get_trunk_span(vec![("", 0)]).unwrap());
    assert_eq!(
        vec![("", 0), ("造血", 3)],
        lattice.get_trunk_span(vec![("", 0), ("造血", 3)]).unwrap()
    );
    assert_eq!(
        vec![("", 0), ("造血", 3)],
        lattice.get_trunk_span(vec![("anything", 0), ("造血", 3)]).unwrap()
    );
}

#[test]
fn an_empty_path_is_refused() {
    let parattice = PaRattice::new(paradict()).unwrap();
    let lattice = parattice.get_lattice(&words(), true, 10);
    assert_eq!(Err(Error::InvalidPath), lattice.get_trunk_span(vec![]));
}

#[test]
fn a_path_with_a_missing_node_is_refused() {
    let parattice = PaRattice::new(paradict()).unwrap();
    let lattice = parattice.get_lattice(&words(), true, 10);
    assert_eq!(Err(Error::InvalidPath), lattice.get_trunk_span(vec![("", 17)]));
    assert_eq!(Err(Error::InvalidPath), lattice.get_trunk_span(vec![("", 1), ("stem", 99)]));
    assert_eq!(
        Err(Error::InvalidPath),
        lattice.get_trunk_span(vec![("", 1), ("stem", 99), ("cell", 13)])
    );
}

#[test]
fn search_index_records_of_a_small_lattice() {
    let parattice = PaRattice::new(vec![vec![vec!["b"], vec!["x", "y"]]]).unwrap();
    let lattice = parattice.get_lattice(&["a", "b", "c"], false, 1);
    let records: Vec<(&str, (usize, usize), usize, usize)> = lattice
        .dump_for_search_index()
        .iter()
        .map(|r| (r.text, r.offset, r.increment, r.length))
        .collect();
    let expected = vec![
        ("a", (0, 1), 1, 1),
        ("b", (1, 2), 1, 2),
        ("x", (1, 2), 0, 1),
        ("y", (1, 2), 1, 1),
        ("c", (2, 3), 1, 1),
    ];
    assert_eq!(expected, records);
}

#[test]
fn every_edge_has_one_record() {
    for lattice in lattices() {
        let records = lattice.dump_for_search_index();
        assert_eq!(lattice.capacity(), records.len());
        let openers: usize = records.iter().map(|r| r.increment).sum();
        assert_eq!(lattice.size() - 1, openers);
        for r in &records {
            assert!(r.length >= 1);
            assert!(r.offset.0 < r.offset.1);
        }
    }
}

#[test]
fn found_paths_spell_the_phrase() {
    let patterns: Vec<Vec<&str>> = vec![
        vec!["幹", "細胞"],
        vec!["stem"],
        vec!["stem", "cell"],
        vec!["stem", "cell", "rescue"],
        vec!["造血", "幹", "細胞", "移植"],
        vec!["cell", "stem"],
        vec!["nothing"],
    ];
    for lattice in lattices() {
        for pattern in &patterns {
            let kmp = LatticeKMP::new(pattern.clone());
            let results = kmp.search(&lattice);
            for path in &results {
                assert_eq!(pattern.len() + 1, path.len());
                assert_eq!("", path[0].0);
                for k in 1..path.len() {
                    assert_eq!(pattern[k - 1], path[k].0);
                    assert!(lattice.node(path[k - 1].1).forwards.contains(&path[k]));
                }
            }
            let mut expected = all_paths(&lattice, pattern);
            expected.sort();
            let mut found = results.clone();
            found.sort();
            assert_eq!(expected, found);
        }
    }
}

/// Every path of the lattice that spells the pattern, found by trying every
/// start node.
fn all_paths<'a>(lattice: &Lattice<'a>, pattern: &[&str]) -> Vec<Vec<(&'a str, usize)>> {
    let mut out = vec![];
    for start in 0..lattice.size() {
        let mut partial: Vec<Vec<(&'a str, usize)>> = vec![vec![("", start)]];
        for token in pattern {
            let mut next = vec![];
            for path in &partial {
                for &edge in &lattice.node(path[path.len() - 1].1).forwards {
                    if edge.0 == *token {
                        let mut longer = path.clone();
                        longer.push(edge);
                        next.push(longer);
                    }
                }
            }
            partial = next;
        }
        out.extend(partial);
    }
    out
}

#[test]
fn a_phrase_that_overlaps_itself_is_found_at_every_place() {
    let parattice = PaRattice::new(vec![]).unwrap();
    let lattice = parattice.get_lattice(&["a", "a", "a", "b", "a", "a"], true, 3);
    let kmp = LatticeKMP::new(vec!["a", "a"]);
    let mut results = kmp.search(&lattice);
    results.sort();
    let expected = vec![
        vec![("", 0), ("a", 1), ("a", 2)],
        vec![("", 1), ("a", 2), ("a", 3)],
        vec![("", 4), ("a", 5), ("a", 6)],
    ];
    assert_eq!(expected, results);
}

#[test]
fn a_phrase_longer_than_the_sentence_is_not_found() {
    let parattice = PaRattice::new(vec![]).unwrap();
    let lattice = parattice.get_lattice(&["a"], true, 3);
    assert!(LatticeKMP::new(vec!["a", "a"]).search(&lattice).is_empty());
    assert_eq!(vec![vec![("", 0), ("a", 1)]], LatticeKMP::new(vec!["a"]).search(&lattice));
    let empty = parattice.get_lattice(&[], true, 3);
    assert!(LatticeKMP::new(vec!["a"]).search(&empty).is_empty());
}

#[test]
fn overlapping_occurrences_are_each_found_once() {
    let parattice = PaRattice::new(vec![]).unwrap();
    let lattice = parattice.get_lattice(&["a", "a", "a"], false, 0);
    let mut results = LatticeKMP::new(vec!["a", "a"]).search(&lattice);
    results.sort();
    let expected = vec![
        vec![("", 0), ("a", 1), ("a", 2)],
        vec![("", 1), ("a", 2), ("a", 3)],
    ];
    assert_eq!(expected, results);
}

#[test]
fn an_occurrence_behind_two_edges_is_found_once() {
    let parattice = PaRattice::new(vec![vec![vec!["a"], vec!["b"]]]).unwrap();
    let lattice = parattice.get_lattice(&["a", "c"], false, 1);
    assert_eq!(vec![("a", 1), ("b", 1)], lattice.node(0).forwards);
    let results = LatticeKMP::new(vec!["c"]).search(&lattice);
    assert_eq!(vec![vec![("", 1), ("c", 2)]], results);
}
