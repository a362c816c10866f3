//! The rendering of a lattice as a GraphViz graph.

use vstd::prelude::*;
use vstd::string::*;
use crate::edge::{edge_view, option_edge_eq};
use crate::lattice::{Lattice, node_linked, forward_edge_ok};
use crate::node::NodeView;

verus! {

/// The character of a digit.
pub open spec fn digit(d: nat) -> char {
    if d == 0 {
        '0'
    } else if d == 1 {
        '1'
    } else if d == 2 {
        '2'
    } else if d == 3 {
        '3'
    } else if d == 4 {
        '4'
    } else if d == 5 {
        '5'
    } else if d == 6 {
        '6'
    } else if d == 7 {
        '7'
    } else if d == 8 {
        '8'
    } else {
        '9'
    }
}

/// A number in decimal digits.
pub open spec fn decimal(n: nat) -> Seq<char>
    decreases n,
{
    if n < 10 {
        seq![digit(n)]
    } else {
        decimal(n / 10) + seq![digit(n % 10)]
    }
}

/// The line that declares node `i`: labelled with its id where `numbered` is
/// set, a bare circle else.
pub open spec fn node_line(i: nat, numbered: bool) -> Seq<char> {
    if numbered {
        "\""@ + decimal(i) + "\" [label=\""@ + decimal(i) + "\",shape=plaintext,width=\"0.1\"];\n"@
    } else {
        "\""@ + decimal(i) + "\" [label=\"\",shape=circle,width=\"0.1\"];\n"@
    }
}

/// The name of the box of the `j`-th edge of node `i`, which leads to node
/// `t`.
pub open spec fn box_name(i: nat, j: nat, t: nat) -> Seq<char> {
    decimal(i) + "-"@ + decimal(j) + "-"@ + decimal(t)
}

/// The line of the box of the `j`-th outgoing edge of node `i`, with the
/// edge's token.
pub open spec fn box_line(g: Seq<NodeView>, i: int, j: int) -> Seq<char> {
    let e = g[i].forwards[j];
    "\""@ + box_name(i as nat, j as nat, e.1 as nat) + "\" [label=\""@ + e.0
        + "\",shape=box];\n"@
}

/// The line of the stub from node `i` to the box of its `j`-th outgoing
/// edge: red where the edge is the node's outgoing main edge.
pub open spec fn stub_line(g: Seq<NodeView>, i: int, j: int) -> Seq<char> {
    let e = g[i].forwards[j];
    "\""@ + decimal(i as nat) + "\" -> \""@ + box_name(i as nat, j as nat, e.1 as nat) + (if g[i].forward_main
        == Some(e) {
        "\" [arrowhead=none,color=\"#ff0000\"];\n"@
    } else {
        "\" [arrowhead=none];\n"@
    })
}

/// The line of the arrow from the box of the `j`-th outgoing edge of node
/// `i` to the edge's end: blue where the edge is the incoming main edge there.
pub open spec fn arrow_line(g: Seq<NodeView>, i: int, j: int) -> Seq<char> {
    let e = g[i].forwards[j];
    "\""@ + box_name(i as nat, j as nat, e.1 as nat) + "\" -> \""@ + decimal(e.1 as nat) + (if g[e.1].backward_main
        == Some((e.0, i)) {
        "\" [color=\"#0000ff\"];\n"@
    } else {
        "\";\n"@
    })
}

/// The three lines of the `j`-th outgoing edge of node `i`: its box, the stub
/// from the node to the box, and the arrow from the box to the edge's end.
pub open spec fn edge_lines(g: Seq<NodeView>, i: int, j: int) -> Seq<char> {
    box_line(g, i, j) + stub_line(g, i, j) + arrow_line(g, i, j)
}

/// The lines of the first `upto` outgoing edges of node `i`.
pub open spec fn edges_text(g: Seq<NodeView>, i: int, upto: int) -> Seq<char>
    decreases upto,
{
    if upto <= 0 {
        Seq::empty()
    } else {
        edges_text(g, i, upto - 1) + edge_lines(g, i, upto - 1)
    }
}

/// The lines of the first `upto` nodes, each with its edges.
pub open spec fn nodes_text(g: Seq<NodeView>, numbered: bool, upto: int) -> Seq<char>
    decreases upto,
{
    if upto <= 0 {
        Seq::empty()
    } else {
        nodes_text(g, numbered, upto - 1) + node_line((upto - 1) as nat, numbered) + edges_text(
            g,
            upto - 1,
            g[upto - 1].forwards.len() as int,
        )
    }
}

/// The rendering of the graph.
pub open spec fn dot_text(g: Seq<NodeView>, numbered: bool) -> Seq<char> {
    "digraph { graph [rankdir=LR];\n"@ + nodes_text(g, numbered, g.len() as int) + "}"@
}

/// The digit `d` as a string.
fn digit_str(d: usize) -> (s: &'static str)
    requires
        d < 10,
    ensures
        s@ == seq![digit(d as nat)],
{
    proof {
        reveal_strlit("0");
        reveal_strlit("1");
        reveal_strlit("2");
        reveal_strlit("3");
        reveal_strlit("4");
        reveal_strlit("5");
        reveal_strlit("6");
        reveal_strlit("7");
        reveal_strlit("8");
        reveal_strlit("9");
    }
    let s = if d == 0 {
        "0"
    } else if d == 1 {
        "1"
    } else if d == 2 {
        "2"
    } else if d == 3 {
        "3"
    } else if d == 4 {
        "4"
    } else if d == 5 {
        "5"
    } else if d == 6 {
        "6"
    } else if d == 7 {
        "7"
    } else if d == 8 {
        "8"
    } else {
        "9"
    };
    assert(s@ =~= seq![digit(d as nat)]);
    s
}

/// Appends a number in decimal digits.
fn append_decimal(out: &mut String, n: usize)
    ensures
        final(out)@ == old(out)@ + decimal(n as nat),
    decreases n,
{
    let ghost o = out@;
    if n >= 10 {
        append_decimal(out, n / 10);
    }
    out.append(digit_str(n % 10));
    assert(out@ =~= o + decimal(n as nat));
}

/// Appends the name of an edge's box.
fn append_box_name(out: &mut String, i: usize, j: usize, t: usize)
    ensures
        final(out)@ == old(out)@ + box_name(i as nat, j as nat, t as nat),
{
    let ghost o = out@;
    append_decimal(out, i);
    out.append("-");
    append_decimal(out, j);
    out.append("-");
    append_decimal(out, t);
    assert(out@ =~= o + box_name(i as nat, j as nat, t as nat));
}

/// Appends the line that declares node `i`.
fn append_node_line(out: &mut String, i: usize, is_numbered: bool)
    ensures
        final(out)@ == old(out)@ + node_line(i as nat, is_numbered),
{
    let ghost o = out@;
    out.append("\"");
    append_decimal(out, i);
    if is_numbered {
        out.append("\" [label=\"");
        append_decimal(out, i);
        out.append("\",shape=plaintext,width=\"0.1\"];\n");
    } else {
        out.append("\" [label=\"\",shape=circle,width=\"0.1\"];\n");
    }
    assert(out@ =~= o + node_line(i as nat, is_numbered));
}

impl<'a> Lattice<'a> {
    /// Appends the line of an edge's box.
    fn append_box_line(&self, out: &mut String, i: usize, j: usize)
        requires
            i < self@.len(),
            j < self@[i as int].forwards.len(),
        ensures
            final(out)@ == old(out)@ + box_line(self@, i as int, j as int),
    {
        let ghost o = out@;
        let node = self.node(i);
        let edge = node.forwards[j];
        assert(self@[i as int].forwards[j as int] == edge_view(edge));
        out.append("\"");
        append_box_name(out, i, j, edge.1);
        out.append("\" [label=\"");
        out.append(edge.0);
        out.append("\",shape=box];\n");
        assert(out@ =~= o + box_line(self@, i as int, j as int));
    }

    /// Appends the line of the stub from a node to an edge's box.
    fn append_stub_line(&self, out: &mut String, i: usize, j: usize)
        requires
            i < self@.len(),
            j < self@[i as int].forwards.len(),
        ensures
            final(out)@ == old(out)@ + stub_line(self@, i as int, j as int),
    {
        let ghost o = out@;
        let node = self.node(i);
        let edge = node.forwards[j];
        assert(self@[i as int].forwards[j as int] == edge_view(edge));
        out.append("\"");
        append_decimal(out, i);
        out.append("\" -> \"");
        append_box_name(out, i, j, edge.1);
        if option_edge_eq(node.forward_main, Some(edge)) {
            out.append("\" [arrowhead=none,color=\"#ff0000\"];\n");
        } else {
            out.append("\" [arrowhead=none];\n");
        }
        assert(out@ =~= o + stub_line(self@, i as int, j as int));
    }

    /// Appends the line of the arrow from an edge's box to the edge's end.
    fn append_arrow_line(&self, out: &mut String, i: usize, j: usize)
        requires
            self.wf(),
            i < self@.len(),
            j < self@[i as int].forwards.len(),
        ensures
            final(out)@ == old(out)@ + arrow_line(self@, i as int, j as int),
    {
        let ghost g = self@;
        let ghost o = out@;
        proof {
            self.lemma_valid();
            assert(node_linked(g, i as int));
            assert(forward_edge_ok(g, i as int, g[i as int].forwards[j as int]));
        }
        let node = self.node(i);
        let edge = node.forwards[j];
        assert(g[i as int].forwards[j as int] == edge_view(edge));
        out.append("\"");
        append_box_name(out, i, j, edge.1);
        out.append("\" -> \"");
        append_decimal(out, edge.1);
        if option_edge_eq(self.node(edge.1).backward_main, Some((edge.0, i))) {
            out.append("\" [color=\"#0000ff\"];\n");
        } else {
            out.append("\";\n");
        }
        assert(out@ =~= o + arrow_line(g, i as int, j as int));
    }

    /// Appends the three lines of the `j`-th outgoing edge of node `i`.
    fn append_edge_lines(&self, out: &mut String, i: usize, j: usize)
        requires
            self.wf(),
            i < self@.len(),
            j < self@[i as int].forwards.len(),
        ensures
            final(out)@ == old(out)@ + edge_lines(self@, i as int, j as int),
    {
        let ghost o = out@;
        self.append_box_line(out, i, j);
        self.append_stub_line(out, i, j);
        self.append_arrow_line(out, i, j);
        assert(out@ =~= o + edge_lines(self@, i as int, j as int));
    }

    /// Renders the lattice as a GraphViz graph: one line for every node,
    /// labelled with its id where `is_numbered` is set, and for every edge a
    /// box with its token between its two nodes. The stub of an outgoing main
    /// edge is red, the arrow of an incoming main edge blue.
    pub fn dump_dot(&self, is_numbered: bool) -> (result: String)
        requires
            self.wf(),
        ensures
            result@ == dot_text(self@, is_numbered),
    {
        let ghost g = self@;
        let mut result = String::new();
        result.append("digraph { graph [rankdir=LR];\n");
        let n = self.size();
        let mut i: usize = 0;
        assert(result@ =~= "digraph { graph [rankdir=LR];\n"@ + nodes_text(g, is_numbered, 0));
        while i < n
            invariant
                g == self@,
                self.wf(),
                n == g.len(),
                i <= n,
                result@ == "digraph { graph [rankdir=LR];\n"@ + nodes_text(
                    g,
                    is_numbered,
                    i as int,
                ),
            decreases n - i,
        {
            let ghost before = result@;
            append_node_line(&mut result, i, is_numbered);
            let ghost mid = result@;
            let count = self.node(i).forwards.len();
            let mut j: usize = 0;
            assert(result@ =~= mid + edges_text(g, i as int, 0));
            while j < count
                invariant
                    g == self@,
                    self.wf(),
                    i < g.len(),
                    count == g[i as int].forwards.len(),
                    j <= count,
                    result@ == mid + edges_text(g, i as int, j as int),
                decreases count - j,
            {
                let ghost prev = result@;
                self.append_edge_lines(&mut result, i, j);
                assert(result@ =~= mid + edges_text(g, i as int, j as int + 1));
                j += 1;
            }
            assert(result@ =~= "digraph { graph [rankdir=LR];\n"@ + nodes_text(
                g,
                is_numbered,
                i as int + 1,
            ));
            i += 1;
        }
        result.append("}");
        result
    }
}

} // verus!
