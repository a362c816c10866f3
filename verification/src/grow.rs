//! The growth of a lattice, step by step: what is seen and queued while the
//! lattice is scanned, which branches are spliced in, and the lattice that
//! has grown when the queue has run empty.

use vstd::prelude::*;
use crate::automaton::StateView;
use crate::chain::{chain_nodes, chain_rank};
use crate::expand::{
    splice, splice_rank, branch_first, trunk_start, trunk_end, walks_back,
};
use crate::idset::ids_put;
use crate::node::NodeView;
use crate::parattice::next_id;

verus! {

/// The tables of a paraphrase dictionary: the automaton of its phrases, the
/// tokens and the group of every phrase, and the phrases of every group.
pub struct Tables {
    pub automaton: Seq<StateView>,
    pub phrases: Seq<Seq<Seq<char>>>,
    pub groups: Seq<usize>,
    pub dict: Seq<Seq<usize>>,
}

/// What the scan has seen: for every node the states it was seen in, and the
/// queue of nodes and states to go on from.
pub struct Seen {
    pub cache: Seq<Seq<usize>>,
    pub queue: Seq<(usize, usize)>,
}

/// A lattice while it grows: its nodes, their ranks, what the scan has seen,
/// and the record of the groups attached.
pub struct Grow {
    pub g: Seq<NodeView>,
    pub rank: Seq<nat>,
    pub seen: Seen,
    pub inserted: Seq<(usize, usize, usize)>,
}

/// The caches as plain values.
pub open spec fn cache_view(c: Seq<Vec<usize>>) -> Seq<Seq<usize>> {
    Seq::new(c.len(), |i: int| c[i]@)
}

/// What the scan has seen, as a plain value.
pub open spec fn seen_of(c: Seq<Vec<usize>>, queue: Seq<(usize, usize)>) -> Seen {
    Seen { cache: cache_view(c), queue }
}

/// Node `target` is seen in state `state`, and the pair is queued where that
/// is new.
pub open spec fn seen_put(s: Seen, target: usize, state: usize) -> Seen {
    if s.cache[target as int].contains(state) {
        s
    } else {
        Seen {
            cache: s.cache.update(target as int, ids_put(s.cache[target as int], state)),
            queue: s.queue.push((target, state)),
        }
    }
}

/// The first `upto` edges out of `node` are followed from state `state`.
pub open spec fn scan(
    a: Seq<StateView>,
    g: Seq<NodeView>,
    s: Seen,
    node: usize,
    state: usize,
    upto: int,
) -> Seen
    decreases upto,
{
    if upto <= 0 {
        s
    } else {
        let e = g[node as int].forwards[upto - 1];
        seen_put(scan(a, g, s, node, state, upto - 1), e.1 as usize, next_id(a, state, e.0))
    }
}

/// The search is started at node `first` from the first `upto` states of
/// `from` over the token `tok`.
pub open spec fn warm(
    a: Seq<StateView>,
    s: Seen,
    from: Seq<usize>,
    tok: Seq<char>,
    first: usize,
    upto: int,
) -> Seen
    decreases upto,
{
    if upto <= 0 {
        s
    } else {
        seen_put(warm(a, s, from, tok, first, upto - 1), first, next_id(a, from[upto - 1], tok))
    }
}

/// As many empty caches as asked for.
pub open spec fn no_caches(count: int) -> Seq<Seq<usize>> {
    Seq::new(count as nat, |i: int| Seq::<usize>::empty())
}

/// The branch that spells `q` is spliced in between `start` and `end`, and
/// the search is started at its first node.
pub open spec fn branch_put(
    a: Seq<StateView>,
    st: Grow,
    q: Seq<Seq<char>>,
    start: usize,
    end: usize,
    depth: nat,
) -> Grow {
    Grow {
        g: splice(st.g, q, start as int, end as int, depth),
        rank: splice_rank(st.rank, q.len() - 1, end as int),
        seen: warm(
            a,
            Seen { cache: st.seen.cache + no_caches(q.len() - 1), queue: st.seen.queue },
            st.seen.cache[start as int],
            q[0],
            branch_first(st.g, q, end as int) as usize,
            st.seen.cache[start as int].len() as int,
        ),
        inserted: st.inserted,
    }
}

/// The first `upto` phrases of the group, but the phrase that was found,
/// are spliced in between `start` and `end`, as far as the nodes of the
/// lattice can be counted.
pub open spec fn attach(
    t: Tables,
    st: Grow,
    group: usize,
    phrase: usize,
    start: usize,
    end: usize,
    depth: usize,
    upto: int,
) -> Grow
    decreases upto,
{
    if upto <= 0 {
        st
    } else {
        let before = attach(t, st, group, phrase, start, end, depth, upto - 1);
        let id = t.dict[group as int][upto - 1];
        let q = t.phrases[id as int];
        if id != phrase && before.g.len() + q.len() <= usize::MAX {
            branch_put(t.automaton, before, q, start, end, (depth + 1) as nat)
        } else {
            before
        }
    }
}

/// The walk that starts at `walk.0` is dealt with: unless the group was
/// attached between the same trunk nodes before, that is recorded and the
/// group is attached between the walk's start and `node`.
pub open spec fn walk_put(
    t: Tables,
    st: Grow,
    walk: (usize, usize),
    group: usize,
    phrase: usize,
    trunk_end: usize,
    node: usize,
    eos: int,
) -> Grow {
    let triple = (group, trunk_start(st.g, walk.0 as int, eos) as usize, trunk_end);
    if st.inserted.contains(triple) {
        st
    } else {
        attach(
            t,
            Grow { inserted: st.inserted.push(triple), ..st },
            group,
            phrase,
            walk.0,
            node,
            walk.1,
            t.dict[group as int].len() as int,
        )
    }
}

/// The first `upto` walks are dealt with.
pub open spec fn walks_put(
    t: Tables,
    st: Grow,
    starts: Seq<(usize, usize)>,
    group: usize,
    phrase: usize,
    trunk_end: usize,
    node: usize,
    eos: int,
    upto: int,
) -> Grow
    decreases upto,
{
    if upto <= 0 {
        st
    } else {
        walk_put(
            t,
            walks_put(t, st, starts, group, phrase, trunk_end, node, eos, upto - 1),
            starts[upto - 1],
            group,
            phrase,
            trunk_end,
            node,
            eos,
        )
    }
}

/// The walks back as pairs of ids.
pub open spec fn walk_ids(walks: Seq<(int, nat)>) -> Seq<(usize, usize)> {
    Seq::new(walks.len(), |i: int| (walks[i].0 as usize, walks[i].1 as usize))
}

/// The phrase with the id `phrase`, which ends at `node`, is dealt with:
/// every walk back from `node` that spells it.
pub open spec fn match_put(
    t: Tables,
    st: Grow,
    phrase: usize,
    node: usize,
    eos: int,
    max_depth: nat,
) -> Grow {
    let starts = walk_ids(walks_back(st.g, t.phrases[phrase as int], node as int, max_depth, 0));
    walks_put(
        t,
        st,
        starts,
        t.groups[phrase as int],
        phrase,
        trunk_end(st.g, st.rank, node as int, eos) as usize,
        node,
        eos,
        starts.len() as int,
    )
}

/// The first `upto` phrases that state `state` reports at `node` are dealt
/// with.
pub open spec fn matches_put(
    t: Tables,
    st: Grow,
    node: usize,
    state: usize,
    eos: int,
    max_depth: nat,
    upto: int,
) -> Grow
    decreases upto,
{
    if upto <= 0 {
        st
    } else {
        match_put(
            t,
            matches_put(t, st, node, state, eos, max_depth, upto - 1),
            t.automaton[state as int].matched[upto - 1] as usize,
            node,
            eos,
            max_depth,
        )
    }
}

/// One step of the growth: the first pair leaves the queue, the edges out
/// of its node are followed from its state, and the phrases that its state
/// reports are dealt with. Once the queue is empty, nothing changes.
pub open spec fn grow_step(t: Tables, st: Grow, eos: int, max_depth: nat) -> Grow {
    if st.seen.queue.len() == 0 {
        st
    } else {
        let node = st.seen.queue[0].0;
        let state = st.seen.queue[0].1;
        let popped = Seen { cache: st.seen.cache, queue: st.seen.queue.drop_first() };
        let scanned = Grow {
            seen: scan(
                t.automaton,
                st.g,
                popped,
                node,
                state,
                st.g[node as int].forwards.len() as int,
            ),
            ..st
        };
        matches_put(
            t,
            scanned,
            node,
            state,
            eos,
            max_depth,
            t.automaton[state as int].matched.len() as int,
        )
    }
}

/// The growth after `steps` steps.
pub open spec fn grow_run(t: Tables, st: Grow, eos: int, max_depth: nat, steps: nat) -> Grow
    decreases steps,
{
    if steps == 0 {
        st
    } else {
        grow_step(t, grow_run(t, st, eos, max_depth, (steps - 1) as nat), eos, max_depth)
    }
}

/// The chain of the sentence, with its source seen in the root state and
/// queued.
pub open spec fn grow_start(words: Seq<Seq<char>>) -> Grow {
    Grow {
        g: chain_nodes(words),
        rank: chain_rank(words),
        seen: Seen {
            cache: no_caches(words.len() as int + 1).update(0, seq![0usize]),
            queue: seq![(0usize, 0usize)],
        },
        inserted: Seq::empty(),
    }
}

/// The lattice `g` is what the chain of the sentence has grown to when the
/// queue has run empty.
pub open spec fn grown_to(t: Tables, words: Seq<Seq<char>>, max_depth: nat, g: Seq<NodeView>) -> bool {
    exists|steps: nat|
        (#[trigger] grow_run(
            t,
            grow_start(words),
            words.len() as int,
            max_depth,
            steps,
        )).seen.queue.len() == 0 && grow_run(t, grow_start(words), words.len() as int, max_depth, steps).g == g
}

/// Once the queue is empty, further steps change nothing.
pub proof fn lemma_grow_run_stays(t: Tables, st: Grow, eos: int, max_depth: nat, a: nat, b: nat)
    requires
        a <= b,
        grow_run(t, st, eos, max_depth, a).seen.queue.len() == 0,
    ensures
        grow_run(t, st, eos, max_depth, b) == grow_run(t, st, eos, max_depth, a),
    decreases b - a,
{
    if a < b {
        lemma_grow_run_stays(t, st, eos, max_depth, a, (b - 1) as nat);
    }
}

/// The chain of a sentence grows to one lattice.
pub proof fn lemma_grown_to_one(
    t: Tables,
    words: Seq<Seq<char>>,
    max_depth: nat,
    g: Seq<NodeView>,
    h: Seq<NodeView>,
)
    requires
        grown_to(t, words, max_depth, g),
        grown_to(t, words, max_depth, h),
    ensures
        g == h,
{
    let eos = words.len() as int;
    let st = grow_start(words);
    let a = choose|a: nat|
        (#[trigger] grow_run(t, st, eos, max_depth, a)).seen.queue.len() == 0 && grow_run(
            t,
            st,
            eos,
            max_depth,
            a,
        ).g == g;
    let b = choose|b: nat|
        (#[trigger] grow_run(t, st, eos, max_depth, b)).seen.queue.len() == 0 && grow_run(
            t,
            st,
            eos,
            max_depth,
            b,
        ).g == h;
    if a <= b {
        lemma_grow_run_stays(t, st, eos, max_depth, a, b);
    } else {
        lemma_grow_run_stays(t, st, eos, max_depth, b, a);
    }
}

} // verus!
