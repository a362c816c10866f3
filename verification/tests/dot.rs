use parattice::PaRattice;

#[test]
fn a_numbered_graph() {
    let parattice = PaRattice::new(vec![]).unwrap();
    let lattice = parattice.get_lattice(&["a"], true, 1);
    let expected = "digraph { graph [rankdir=LR];\n\
                    \"0\" [label=\"0\",shape=plaintext,width=\"0.1\"];\n\
                    \"0-0-1\" [label=\"a\",shape=box];\n\
                    \"0\" -> \"0-0-1\" [arrowhead=none,color=\"#ff0000\"];\n\
                    \"0-0-1\" -> \"1\" [color=\"#0000ff\"];\n\
                    \"1\" [label=\"1\",shape=plaintext,width=\"0.1\"];\n\
                    }";
    assert_eq!(expected, lattice.dump_dot(true));
}

#[test]
fn a_graph_without_numbers() {
    let parattice = PaRattice::new(vec![vec![vec!["b"], vec!["a"]]]).unwrap();
    let lattice = parattice.get_lattice(&["b"], true, 1);
    let expected = "digraph { graph [rankdir=LR];\n\
                    \"0\" [label=\"\",shape=circle,width=\"0.1\"];\n\
                    \"0-0-1\" [label=\"a\",shape=box];\n\
                    \"0\" -> \"0-0-1\" [arrowhead=none];\n\
                    \"0-0-1\" -> \"1\";\n\
                    \"0-1-1\" [label=\"b\",shape=box];\n\
                    \"0\" -> \"0-1-1\" [arrowhead=none,color=\"#ff0000\"];\n\
                    \"0-1-1\" -> \"1\" [color=\"#0000ff\"];\n\
                    \"1\" [label=\"\",shape=circle,width=\"0.1\"];\n\
                    }";
    assert_eq!(expected, lattice.dump_dot(false));
}

#[test]
fn node_ids_of_several_digits() {
    let parattice = PaRattice::new(vec![]).unwrap();
    let words = vec!["w"; 12];
    let lattice = parattice.get_lattice(&words, false, 1);
    let dot = lattice.dump_dot(true);
    assert!(dot.contains("\"10\" [label=\"10\",shape=plaintext,width=\"0.1\"];\n"));
    assert!(dot.contains("\"11-0-12\" [label=\"w\",shape=box];\n"));
    assert!(dot.contains("\"11-0-12\" -> \"12\" [color=\"#0000ff\"];\n"));
    assert!(dot.starts_with("digraph { graph [rankdir=LR];\n\"0\" [label=\"0\""));
    assert!(dot.ends_with("\"12\" [label=\"12\",shape=plaintext,width=\"0.1\"];\n}"));
}

#[test]
fn an_empty_lattice() {
    let parattice = PaRattice::new(vec![]).unwrap();
    let lattice = parattice.get_lattice(&[], false, 1);
    assert_eq!(
        "digraph { graph [rankdir=LR];\n\"0\" [label=\"\",shape=circle,width=\"0.1\"];\n}",
        lattice.dump_dot(false)
    );
}
