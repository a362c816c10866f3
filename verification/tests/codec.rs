use parattice::codec::{usize_to_vec, vec_to_usize};
use parattice::Error;
use parattice::Lattice;
use parattice::PaRattice;

fn number(x: u64) -> Vec<u8> {
    x.to_le_bytes().to_vec()
}

fn edge(token: &str, node: u64) -> Vec<u8> {
    let mut out = number(token.len() as u64);
    out.extend_from_slice(token.as_bytes());
    out.extend_from_slice(&number(node));
    out
}

/// The encoding of the lattice of the one-word sentence "a".
fn one_word_bytes() -> Vec<u8> {
    let mut out = number(2);
    out.extend_from_slice(&number(1));
    out.extend_from_slice(&number(0));
    out.extend_from_slice(&edge("a", 1));
    out.extend_from_slice(&number(0));
    out.extend_from_slice(&number(1));
    out.extend_from_slice(&edge("a", 0));
    out
}

fn one_word_lattice() -> Lattice<'static> {
    let parattice = PaRattice::new(vec![]).unwrap();
    parattice.get_lattice(&["a"], true, 2)
}

#[test]
fn numbers_are_written_lowest_byte_first() {
    assert_eq!(vec![2, 1, 0, 0, 0, 0, 0, 0], usize_to_vec(0x0102));
    assert_eq!(vec![0; 8], usize_to_vec(0));
    assert_eq!(
        vec![0xef, 0xcd, 0xab, 0x89, 0x67, 0x45, 0x23, 0x01],
        usize_to_vec(0x0123_4567_89ab_cdef)
    );
}

#[test]
fn numbers_are_read_lowest_byte_first() {
    assert_eq!(Some(0x0102), vec_to_usize(&[2, 1, 0, 0, 0, 0, 0, 0]));
    assert_eq!(
        Some(0x0123_4567_89ab_cdef),
        vec_to_usize(&[0xef, 0xcd, 0xab, 0x89, 0x67, 0x45, 0x23, 0x01])
    );
    assert_eq!(Some(usize::MAX), vec_to_usize(&[0xff; 8]));
}

#[test]
fn a_number_read_back_is_the_number_written() {
    for x in [0usize, 1, 255, 256, 65_535, 1 << 40, usize::MAX] {
        assert_eq!(Some(x), vec_to_usize(&usize_to_vec(x)));
    }
}

#[test]
fn one_word_lattice_has_the_expected_bytes() {
    assert_eq!(one_word_bytes(), one_word_lattice().to_bytes());
}

#[test]
fn one_node_lattice_has_the_expected_bytes() {
    let parattice = PaRattice::new(vec![]).unwrap();
    let lattice = parattice.get_lattice(&[], true, 2);
    let mut expected = number(1);
    expected.extend_from_slice(&number(0));
    expected.extend_from_slice(&number(0));
    assert_eq!(expected, lattice.to_bytes());
    assert_eq!(lattice, Lattice::new_from_bytes(&expected).unwrap());
}

#[test]
fn main_edge_is_written_first() {
    let parattice = PaRattice::new(vec![vec![vec!["b"], vec!["a"]]]).unwrap();
    let lattice = parattice.get_lattice(&["b"], true, 2);
    // node 0 has the edges ("a", 1) and ("b", 1); ("b", 1) is its main edge
    let mut expected = number(2);
    expected.extend_from_slice(&number(2));
    expected.extend_from_slice(&number(0));
    expected.extend_from_slice(&edge("b", 1));
    expected.extend_from_slice(&edge("a", 1));
    expected.extend_from_slice(&number(0));
    expected.extend_from_slice(&number(2));
    expected.extend_from_slice(&edge("b", 0));
    expected.extend_from_slice(&edge("a", 0));
    assert_eq!(expected, lattice.to_bytes());
}

#[test]
fn decoding_gives_the_lattice_back() {
    let bytes = one_word_bytes();
    let lattice = Lattice::new_from_bytes(&bytes).unwrap();
    assert_eq!(one_word_lattice(), lattice);
    assert_eq!(2, lattice.size());
    assert_eq!(1, lattice.capacity());
    assert_eq!(vec![("a", 1)], lattice.node(0).forwards);
    assert_eq!(Some(("a", 0)), lattice.node(1).backward_main);
    assert_eq!(bytes, lattice.to_bytes());
}

#[test]
fn decoding_takes_edges_in_any_order() {
    // the second node's main edge comes first, the other edge is smaller
    let mut bytes = number(2);
    bytes.extend_from_slice(&number(2));
    bytes.extend_from_slice(&number(0));
    bytes.extend_from_slice(&edge("b", 1));
    bytes.extend_from_slice(&edge("a", 1));
    bytes.extend_from_slice(&number(0));
    bytes.extend_from_slice(&number(2));
    bytes.extend_from_slice(&edge("b", 0));
    bytes.extend_from_slice(&edge("a", 0));
    let lattice = Lattice::new_from_bytes(&bytes).unwrap();
    assert_eq!(vec![("a", 1), ("b", 1)], lattice.node(0).forwards);
    assert_eq!(Some(("b", 1)), lattice.node(0).forward_main);
    assert_eq!(vec![("a", 0), ("b", 0)], lattice.node(1).backwards);
}

#[test]
fn decoding_keeps_tokens_of_several_bytes() {
    let parattice = PaRattice::new(vec![]).unwrap();
    let lattice = parattice.get_lattice(&["造血", "幹"], false, 1);
    let bytes = lattice.to_bytes();
    let back = Lattice::new_from_bytes(&bytes).unwrap();
    assert_eq!(vec![("造血", 1)], back.node(0).forwards);
    assert_eq!(vec![("幹", 2)], back.node(1).forwards);
    assert_eq!(lattice, back);
}

#[test]
fn empty_bytes_are_refused() {
    assert_eq!(Err(Error::MalformedLattice), Lattice::new_from_bytes(&[]));
}

#[test]
fn cut_bytes_are_refused() {
    let bytes = one_word_bytes();
    for len in 0..bytes.len() {
        assert_eq!(Err(Error::MalformedLattice), Lattice::new_from_bytes(&bytes[..len]));
    }
}

#[test]
fn bytes_behind_the_last_node_are_refused() {
    let mut bytes = one_word_bytes();
    bytes.push(0);
    assert_eq!(Err(Error::MalformedLattice), Lattice::new_from_bytes(&bytes));
}

#[test]
fn a_wrong_node_count_is_refused() {
    let mut bytes = one_word_bytes();
    bytes[0] = 3;
    assert_eq!(Err(Error::MalformedLattice), Lattice::new_from_bytes(&bytes));
    bytes[0] = 1;
    assert_eq!(Err(Error::MalformedLattice), Lattice::new_from_bytes(&bytes));
    bytes[0] = 0;
    assert_eq!(Err(Error::MalformedLattice), Lattice::new_from_bytes(&bytes));
}

#[test]
fn a_wrong_edge_count_is_refused() {
    let mut bytes = one_word_bytes();
    bytes[8] = 2;
    assert_eq!(Err(Error::MalformedLattice), Lattice::new_from_bytes(&bytes));
}

#[test]
fn a_token_that_is_not_utf8_is_refused() {
    let mut bytes = number(2);
    bytes.extend_from_slice(&number(1));
    bytes.extend_from_slice(&number(0));
    bytes.extend_from_slice(&number(1));
    bytes.push(0xff);
    bytes.extend_from_slice(&number(1));
    bytes.extend_from_slice(&number(0));
    bytes.extend_from_slice(&number(1));
    bytes.extend_from_slice(&number(1));
    bytes.push(0xff);
    bytes.extend_from_slice(&number(0));
    assert_eq!(Err(Error::MalformedLattice), Lattice::new_from_bytes(&bytes));
}

#[test]
fn an_edge_to_a_missing_node_is_refused() {
    let mut bytes = number(2);
    bytes.extend_from_slice(&number(1));
    bytes.extend_from_slice(&number(0));
    bytes.extend_from_slice(&edge("a", 5));
    bytes.extend_from_slice(&number(0));
    bytes.extend_from_slice(&number(1));
    bytes.extend_from_slice(&edge("a", 0));
    assert_eq!(Err(Error::MalformedLattice), Lattice::new_from_bytes(&bytes));
}

#[test]
fn an_edge_held_at_one_end_only_is_refused() {
    let mut bytes = number(2);
    bytes.extend_from_slice(&number(1));
    bytes.extend_from_slice(&number(0));
    bytes.extend_from_slice(&edge("a", 1));
    bytes.extend_from_slice(&number(0));
    bytes.extend_from_slice(&number(1));
    bytes.extend_from_slice(&edge("b", 0));
    assert_eq!(Err(Error::MalformedLattice), Lattice::new_from_bytes(&bytes));
}

#[test]
fn an_edge_to_an_earlier_node_is_refused() {
    let mut bytes = number(2);
    bytes.extend_from_slice(&number(1));
    bytes.extend_from_slice(&number(1));
    bytes.extend_from_slice(&edge("a", 1));
    bytes.extend_from_slice(&edge("b", 1));
    bytes.extend_from_slice(&number(1));
    bytes.extend_from_slice(&number(1));
    bytes.extend_from_slice(&edge("b", 0));
    bytes.extend_from_slice(&edge("a", 0));
    assert_eq!(Err(Error::MalformedLattice), Lattice::new_from_bytes(&bytes));
}

#[test]
fn a_number_is_read_from_the_first_eight_bytes() {
    assert_eq!(Some(0x0102), vec_to_usize(&[2, 1, 0, 0, 0, 0, 0, 0, 9, 9]));
}
