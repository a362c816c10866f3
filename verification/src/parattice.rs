//! The paraphrase expander: from a dictionary of phrase groups and a sentence
//! to the lattice of the sentence's paraphrases.

use vstd::prelude::*;
use std::collections::VecDeque;
use crate::automaton::{
    PMANode, StateView, states_view, automaton_ok, state_ok, next_state, next_pma_state_id,
    new_state, add_phrase, build_fallbacks, lemma_root_building, trie_of, tallied,
    lemma_trie_of_prefix, lemma_automaton_one,
};
use crate::trie::{
    building, automaton_full, phrases_ok, is_suffix, run, lemma_run_reports,
};
use crate::chain::{
    make_chain, chain_nodes, chain_rank, spells, lemma_chain_growing,
    lemma_chain_valid,
};
use crate::derive::{
    faithful, lemma_chain_faithful, lemma_splice_faithful, lemma_no_more_faithful,
};
use crate::error::Error;
use crate::grow::{
    Tables, Seen, Grow, cache_view, seen_of, seen_put, scan, warm, no_caches, branch_put, attach,
    walk_put, walks_put, walk_ids, match_put, matches_put, grow_step, grow_run, grow_start,
    grown_to, lemma_grown_to_one,
};
use crate::expand::{
    growing, walks_ok, walks_view, walks_back, splice_rank, main_branch_bw, main_branch_fw,
    backward_match, insert_branch,
};
use crate::paraphrase::{
    connects, group_joined, group_attached, carried, graph_kept, grown, triples_kept, group_seen,
    weight_upto, heaviest, room, roomy, trunk_flat, trunk_state, trunk_watch,
    handled, occurs, paraphrased, lemma_graph_kept_same, lemma_graph_kept_chain, lemma_grown_same,
    lemma_grown_chain, lemma_visit_grown, lemma_caches_grown, lemma_splice_kept, lemma_kept_route,
    lemma_attached_kept, lemma_fits, lemma_filled, lemma_starts_kept, lemma_group_seen_kept,
    lemma_walk_route, lemma_trunk_walk, lemma_watch_step, lemma_trunk_done,
    lemma_carried_paraphrased,
};
use crate::sound::{
    sound, node_sound, start_ok, chain_topo, splice_topo, lemma_chain_sound, lemma_walks_sound,
};
use crate::idset::{
    increasing, below, total_len, ids_insert, ids_put, lemma_total_len_update, lemma_total_len_bound,
};
use crate::lattice::{Lattice, valid_nodes};
use crate::node::{LatticeNode, NodeView, nodes_view, nodes_in_range};
use crate::kahn::{Kahn, kahn_end, lemma_kahn_end_unique};
use crate::rounds::lemma_shrunk_to_one;
use crate::reindex::{index_left_to_right, renumbered};
use crate::merge::in_order;
use crate::shrink::{shrink_lattice, merged_down};
use crate::token::tokens_view;
use crate::triples::{triples_ok, triples_contains, lemma_triples_bound};

verus! {

/// A group as a plain value: its phrases.
pub open spec fn group_view<'a>(g: Seq<Vec<&'a str>>) -> Seq<Seq<Seq<char>>> {
    Seq::new(g.len(), |i: int| tokens_view(g[i]@))
}

/// A dictionary as a plain value: its groups.
pub open spec fn dict_view<'a>(d: Seq<Vec<Vec<&'a str>>>) -> Seq<Seq<Seq<Seq<char>>>> {
    Seq::new(d.len(), |i: int| group_view(d[i]@))
}

/// A dictionary is well formed when no group and no phrase is empty.
pub open spec fn dict_ok(d: Seq<Seq<Seq<Seq<char>>>>) -> bool {
    forall|g: int|
        0 <= g < d.len() ==> (#[trigger] d[g]).len() > 0 && forall|j: int|
            0 <= j < d[g].len() ==> (#[trigger] d[g][j]).len() > 0
}

/// The phrases of a phrase table as plain values, by id.
pub open spec fn phrase_list<'a>(phrases: Seq<(Vec<&'a str>, usize)>) -> Seq<Seq<Seq<char>>> {
    Seq::new(phrases.len(), |i: int| tokens_view(phrases[i].0@))
}

/// The groups of the phrases of a phrase table, by id.
pub open spec fn group_list<'a>(phrases: Seq<(Vec<&'a str>, usize)>) -> Seq<usize> {
    Seq::new(phrases.len(), |i: int| phrases[i].1)
}

/// The phrases of the first `upto` groups of the dictionary, one group after
/// the other.
pub open spec fn flat(d: Seq<Seq<Seq<Seq<char>>>>, upto: int) -> Seq<Seq<Seq<char>>>
    decreases upto,
{
    if upto <= 0 {
        Seq::empty()
    } else {
        flat(d, upto - 1) + d[upto - 1]
    }
}

/// For each of these phrases, its group.
pub open spec fn flat_groups(d: Seq<Seq<Seq<Seq<char>>>>, upto: int) -> Seq<usize>
    decreases upto,
{
    if upto <= 0 {
        Seq::empty()
    } else {
        flat_groups(d, upto - 1) + Seq::new(d[upto - 1].len(), |j: int| (upto - 1) as usize)
    }
}

/// The ids of the phrases of group `g`: the places of its phrases among the
/// phrases of all groups.
pub open spec fn group_ids(d: Seq<Seq<Seq<Seq<char>>>>, g: int) -> Seq<usize> {
    Seq::new(d[g].len(), |j: int| (flat(d, g).len() + j) as usize)
}

/// The tables `t` are the tables of the dictionary: its phrases one group
/// after the other, their groups, the ids of the phrases of every group,
/// and the automaton that is the trie of the phrases with its fallbacks.
pub open spec fn tables_of(d: Seq<Seq<Seq<Seq<char>>>>, t: Tables) -> bool {
    &&& t.phrases == flat(d, d.len() as int)
    &&& t.groups == flat_groups(d, d.len() as int)
    &&& t.dict == Seq::new(d.len(), |g: int| group_ids(d, g))
    &&& tallied(trie_of(t.phrases, t.phrases.len() as int), t.automaton)
    &&& automaton_full(t.automaton, t.phrases)
}

/// A dictionary has one set of tables.
pub proof fn lemma_tables_one(d: Seq<Seq<Seq<Seq<char>>>>, t: Tables, u: Tables)
    requires
        tables_of(d, t),
        tables_of(d, u),
    ensures
        t == u,
{
    lemma_automaton_one(
        trie_of(t.phrases, t.phrases.len() as int),
        t.phrases,
        t.automaton,
        u.automaton,
    );
}

/// A paraphrase dictionary, indexed for matching.
pub struct PaRattice<'a> {
    pub(crate) pma: Vec<PMANode<'a>>,
    pub(crate) phrases: Vec<(Vec<&'a str>, usize)>,
    pub(crate) dict: Vec<Vec<usize>>,
}

/// The phrase table and the group table fit together: every phrase is not
/// empty and names its group, and every group lists phrases of the table.
pub open spec fn tables_ok<'a>(phrases: Seq<(Vec<&'a str>, usize)>, dict: Seq<Vec<usize>>) -> bool {
    &&& forall|p: int|
        0 <= p < phrases.len() ==> (#[trigger] phrases[p]).0@.len() > 0 && phrases[p].1
            < dict.len()
    &&& forall|g: int, j: int|
        0 <= g < dict.len() && 0 <= j < dict[g]@.len() ==> (#[trigger] dict[g]@[j])
            < phrases.len() && phrases[dict[g]@[j] as int].1 == g
    &&& forall|p: int|
        0 <= p < phrases.len() ==> listed_in(dict[(#[trigger] phrases[p]).1 as int]@, p)
}

/// The list holds the id.
pub open spec fn listed_in(list: Seq<usize>, id: int) -> bool {
    exists|k: int| 0 <= k < list.len() && #[trigger] list[k] == id
}

/// Copies a vector of tokens.
pub fn copy_tokens<'a>(v: &Vec<&'a str>) -> (r: Vec<&'a str>)
    ensures
        r@ == v@,
{
    let mut out: Vec<&'a str> = Vec::new();
    let mut i: usize = 0;
    while i < v.len()
        invariant
            i <= v.len(),
            out@ == v@.take(i as int),
        decreases v.len() - i,
    {
        out.push(v[i]);
        assert(v@.take(i as int + 1) =~= v@.take(i as int).push(v@[i as int]));
        i += 1;
    }
    assert(v@.take(v.len() as int) =~= v@);
    out
}

impl<'a> PaRattice<'a> {
    /// The dictionary that the index was made from: groups of phrases of
    /// tokens.
    pub closed spec fn dictionary(&self) -> Seq<Seq<Seq<Seq<char>>>> {
        Seq::new(
            self.dict@.len(),
            |g: int|
                Seq::new(
                    self.dict@[g]@.len(),
                    |j: int| tokens_view(self.phrases@[self.dict@[g]@[j] as int].0@),
                ),
        )
    }

    /// The tables of the index: the automaton, the tokens and the group of
    /// every phrase, and the phrases of every group.
    pub closed spec fn tables(&self) -> Tables {
        Tables {
            automaton: states_view(self.pma@),
            phrases: phrase_list(self.phrases@),
            groups: Seq::new(self.phrases@.len(), |i: int| self.phrases@[i].1),
            dict: Seq::new(self.dict@.len(), |g: int| self.dict@[g]@),
        }
    }

    /// The index is sound: the automaton is the automaton of the phrases, and
    /// the tables fit together.
    pub closed spec fn wf(&self) -> bool {
        &&& automaton_full(states_view(self.pma@), phrase_list(self.phrases@))
        &&& tables_ok(self.phrases@, self.dict@)
    }

    /// Whether the automaton, after it has read the tokens `w` from its root,
    /// reports phrase `j` of group `g`.
    pub closed spec fn reports(&self, w: Seq<Seq<char>>, g: int, j: int) -> bool {
        states_view(self.pma@)[run(states_view(self.pma@), w)].matched.contains(
            self.dict@[g]@[j] as int,
        )
    }

    /// The automaton reports a phrase of the dictionary after the token
    /// sequences that end with the phrase, and after no others.
    pub proof fn lemma_reports(&self, w: Seq<Seq<char>>, g: int, j: int)
        requires
            self.wf(),
            0 <= g < self.dictionary().len(),
            0 <= j < self.dictionary()[g].len(),
        ensures
            self.reports(w, g, j) <==> is_suffix(self.dictionary()[g][j], w),
    {
        let id = self.dict@[g]@[j] as int;
        lemma_run_reports(states_view(self.pma@), phrase_list(self.phrases@), w, id);
    }

    /// Indexes a paraphrase dictionary. A dictionary with an empty group or an
    /// empty phrase is refused.
    pub fn new(dict: Vec<Vec<Vec<&'a str>>>) -> (r: Result<PaRattice<'a>, Error>)
        ensures
            r.is_ok() <==> dict_ok(dict_view(dict@)),
            r matches Ok(p) ==> p.wf() && p.dictionary() == dict_view(dict@),
            r matches Ok(p) ==> forall|w: Seq<Seq<char>>, g: int, j: int|
                0 <= g < dict@.len() && 0 <= j < dict@[g]@.len() ==> (#[trigger] p.reports(w, g, j)
                    <==> is_suffix(dict_view(dict@)[g][j], w)),
            r matches Err(e) ==> e == Error::MalformedDictionary,
            r matches Ok(p) ==> tables_of(dict_view(dict@), p.tables()),
    {
        let ghost dv = dict_view(dict@);
        let mut pma: Vec<PMANode<'a>> = Vec::new();
        pma.push(new_state(Ghost(Seq::empty())));
        let mut phrases: Vec<(Vec<&'a str>, usize)> = Vec::new();
        let mut ids: Vec<Vec<usize>> = Vec::new();
        let mut i: usize = 0;
        proof {
            lemma_root_building(states_view(pma@));
            assert(phrase_list(phrases@) =~= Seq::empty());
            assert(group_list(phrases@) =~= Seq::empty());
            assert(states_view(pma@) =~= trie_of(phrase_list(phrases@), 0));
        }
        while i < dict.len()
            invariant
                dv == dict_view(dict@),
                i <= dict.len(),
                ids.len() == i,
                phrase_list(phrases@) == flat(dv, i as int),
                group_list(phrases@) == flat_groups(dv, i as int),
                forall|g: int| 0 <= g < i ==> (#[trigger] ids[g])@ == group_ids(dv, g),
                states_view(pma@) == trie_of(phrase_list(phrases@), phrases.len() as int),
                building(states_view(pma@), phrase_list(phrases@)),
                forall|p: int|
                    0 <= p < phrases.len() ==> (#[trigger] phrases[p]).0@.len() > 0
                        && phrases[p].1 < i && listed_in(ids[phrases[p].1 as int]@, p),
                forall|g: int|
                    0 <= g < i ==> (#[trigger] ids[g])@.len() == dict[g]@.len() && ids[g]@.len()
                        > 0,
                forall|g: int, j: int|
                    0 <= g < i && 0 <= j < ids[g]@.len() ==> (#[trigger] ids[g]@[j])
                        < phrases.len() && phrases[ids[g]@[j] as int].0@ == dict[g]@[j]@
                        && phrases[ids[g]@[j] as int].1 == g,
            decreases dict.len() - i,
        {
            let group = &dict[i];
            if group.len() == 0 {
                proof {
                    assert(dv[i as int].len() == 0);
                }
                return Err(Error::MalformedDictionary);
            }
            let mut id_group: Vec<usize> = Vec::new();
            let mut j: usize = 0;
            proof {
                assert(flat(dv, i as int) + dv[i as int].take(0) =~= flat(dv, i as int));
                assert(flat_groups(dv, i as int) + Seq::new(0nat, |k: int| i) =~= flat_groups(
                    dv,
                    i as int,
                ));
                assert(id_group@ =~= Seq::new(
                    0nat,
                    |k: int| (flat(dv, i as int).len() + k) as usize,
                ));
            }
            while j < group.len()
                invariant
                    dv == dict_view(dict@),
                    i < dict.len(),
                    group == &dict[i as int],
                    j <= group.len(),
                    id_group.len() == j,
                    ids.len() == i,
                    phrase_list(phrases@) == flat(dv, i as int) + dv[i as int].take(j as int),
                    group_list(phrases@) == flat_groups(dv, i as int) + Seq::new(
                        j as nat,
                        |k: int| i,
                    ),
                    id_group@ == Seq::new(
                        j as nat,
                        |k: int| (flat(dv, i as int).len() + k) as usize,
                    ),
                    forall|g: int| 0 <= g < i ==> (#[trigger] ids[g])@ == group_ids(dv, g),
                    states_view(pma@) == trie_of(phrase_list(phrases@), phrases.len() as int),
                    building(states_view(pma@), phrase_list(phrases@)),
                    forall|p: int|
                        0 <= p < phrases.len() ==> (#[trigger] phrases[p]).0@.len() > 0
                            && phrases[p].1 <= i && (if phrases[p].1 < i {
                            listed_in(ids[phrases[p].1 as int]@, p)
                        } else {
                            listed_in(id_group@, p)
                        }),
                    forall|g: int|
                        0 <= g < i ==> (#[trigger] ids[g])@.len() == dict[g]@.len()
                            && ids[g]@.len() > 0,
                    forall|g: int, j: int|
                        0 <= g < i && 0 <= j < ids[g]@.len() ==> (#[trigger] ids[g]@[j])
                            < phrases.len() && phrases[ids[g]@[j] as int].0@ == dict[g]@[j]@
                            && phrases[ids[g]@[j] as int].1 == g,
                    forall|k: int|
                        0 <= k < j ==> (#[trigger] id_group[k]) < phrases.len()
                            && phrases[id_group[k] as int].0@ == group@[k]@
                            && phrases[id_group[k] as int].1 == i,
                decreases group.len() - j,
            {
                let phrase = &group[j];
                if phrase.len() == 0 {
                    proof {
                        assert(dv[i as int][j as int].len() == 0);
                    }
                    return Err(Error::MalformedDictionary);
                }
                let id = phrases.len();
                let ghost list = phrase_list(phrases@);
                let ghost group0 = id_group@;
                let ghost phrases0 = phrases@;
                add_phrase(&mut pma, phrase, id, Ghost(list));
                id_group.push(id);
                phrases.push((copy_tokens(phrase), i));
                proof {
                    assert(phrase_list(phrases@) =~= list.push(tokens_view(phrase@)));
                    assert(dv[i as int][j as int] == tokens_view(phrase@));
                    assert(dv[i as int].take(j as int + 1) =~= dv[i as int].take(j as int).push(
                        tokens_view(phrase@),
                    ));
                    assert(phrase_list(phrases@) =~= flat(dv, i as int) + dv[i as int].take(
                        j as int + 1,
                    ));
                    assert(group_list(phrases@) =~= group_list(phrases0).push(i)) by {
                        assert forall|q: int| 0 <= q < phrases0.len() implies phrases@[q]
                            == phrases0[q] by {}
                    }
                    assert(group_list(phrases0).push(i) =~= flat_groups(dv, i as int) + Seq::new(
                        (j + 1) as nat,
                        |k: int| i,
                    ));
                    assert(id_group@ =~= Seq::new(
                        (j + 1) as nat,
                        |k: int| (flat(dv, i as int).len() + k) as usize,
                    ));
                    lemma_trie_of_prefix(list, phrase_list(phrases@), list.len() as int);
                    assert forall|p: int| 0 <= p < phrases.len() implies (if (
                    #[trigger] phrases[p]).1 < i {
                        listed_in(ids[phrases[p].1 as int]@, p)
                    } else {
                        listed_in(id_group@, p)
                    }) by {
                        if p < phrases0.len() {
                            assert(phrases[p] == phrases0[p]);
                            if phrases0[p].1 == i {
                                let k = choose|k: int|
                                    0 <= k < group0.len() && #[trigger] group0[k] == p;
                                assert(id_group@[k] == p);
                            }
                        } else {
                            assert(id_group@[j as int] == p);
                        }
                    }
                }
                j += 1;
            }
            let ghost ids0 = ids@;
            let ghost group1 = id_group@;
            ids.push(id_group);
            proof {
                assert(dv[i as int].take(group.len() as int) =~= dv[i as int]);
                assert(dv[i as int].len() == group.len());
                assert(group1 =~= group_ids(dv, i as int));
                assert forall|g: int| 0 <= g < i + 1 implies (#[trigger] ids[g])@ == group_ids(
                    dv,
                    g,
                ) by {
                    if g < i {
                        assert(ids[g] == ids0[g]);
                    }
                }
                assert forall|p: int| 0 <= p < phrases.len() implies listed_in(
                    ids[(#[trigger] phrases[p]).1 as int]@,
                    p,
                ) by {
                    if phrases[p].1 < i {
                        assert(ids[phrases[p].1 as int] == ids0[phrases[p].1 as int]);
                    } else {
                        assert(ids[i as int]@ == group1);
                    }
                }
            }
            i += 1;
        }
        build_fallbacks(&mut pma, Ghost(phrase_list(phrases@)));
        let p = PaRattice { pma, phrases, dict: ids };
        proof {
            assert(phrases_ok(phrase_list(p.phrases@)));
            assert(p.tables().groups =~= group_list(p.phrases@));
            assert(p.tables().dict =~= Seq::new(dv.len(), |g: int| group_ids(dv, g)));
            assert(p.dictionary() =~~= dv);
            assert forall|w: Seq<Seq<char>>, g: int, j: int|
                0 <= g < dict@.len() && 0 <= j < dict@[g]@.len() implies (#[trigger] p.reports(
                w,
                g,
                j,
            ) <==> is_suffix(dv[g][j], w)) by {
                assert(dv[g].len() == dict@[g]@.len());
                p.lemma_reports(w, g, j);
            }
            assert forall|g: int| 0 <= g < dv.len() implies (#[trigger] dv[g]).len() > 0
                && forall|j: int| 0 <= j < dv[g].len() ==> (#[trigger] dv[g][j]).len() > 0 by {
                assert(ids[g]@.len() > 0);
                assert forall|j: int| 0 <= j < dv[g].len() implies (#[trigger] dv[g][j]).len()
                    > 0 by {
                    let id = ids[g]@[j];
                    assert(phrases[id as int].0@.len() > 0);
                }
            }
        }
        Ok(p)
    }
}

/// Every cache is an id set of automaton states.
pub open spec fn caches_ok(cache: Seq<Vec<usize>>, states: int) -> bool {
    forall|x: int|
        0 <= x < cache.len() ==> increasing((#[trigger] cache[x])@) && below(cache[x]@, states)
}

/// Every entry of the queue pairs a node of the lattice with a state of the
/// automaton.
pub open spec fn queue_ok(queue: Seq<(usize, usize)>, nodes: int, states: int) -> bool {
    forall|k: int| 0 <= k < queue.len() ==> (#[trigger] queue[k]).0 < nodes && queue[k].1 < states
}

/// What holds of the search for phrases between two steps: the lattice is a
/// growing one, every node has its cache of the states it was seen in, the
/// queue names nodes and states, and the record of branches is in order.
pub open spec fn search_ok(
    g: Seq<NodeView>,
    eos: int,
    rank: Seq<nat>,
    cache: Seq<Vec<usize>>,
    queue: Seq<(usize, usize)>,
    inserted: Seq<(usize, usize, usize)>,
    states: int,
    groups: int,
) -> bool {
    &&& growing(g, eos, rank)
    &&& cache.len() == g.len()
    &&& caches_ok(cache, states)
    &&& queue_ok(queue, g.len() as int, states)
    &&& triples_ok(inserted, groups, eos)
}

/// The node at the end of the outgoing edge `k` of `node` was seen in the
/// state that the edge's token leads to from `state`.
pub open spec fn seen_next(
    a: Seq<StateView>,
    g: Seq<NodeView>,
    cache: Seq<Vec<usize>>,
    node: int,
    state: int,
    k: int,
) -> bool {
    let e = g[node].forwards[k];
    0 <= e.1 < cache.len() && exists|s: usize|
        s as int == next_state(a, state, e.0) && #[trigger] cache[e.1]@.contains(s)
}

/// What following the first `upto` edges out of `node` from `state` has
/// done: what was seen stays seen, the ends of the edges are seen in the
/// states the edges lead to, and whatever is seen for the first time is
/// behind what was in the queue.
pub open spec fn scanned(
    a: Seq<StateView>,
    g: Seq<NodeView>,
    c0: Seq<Vec<usize>>,
    c1: Seq<Vec<usize>>,
    q0: Seq<(usize, usize)>,
    q1: Seq<(usize, usize)>,
    node: int,
    state: int,
    upto: int,
) -> bool {
    &&& c1.len() == c0.len()
    &&& forall|x: int, s: usize|
        0 <= x < c0.len() && c0[x]@.contains(s) ==> #[trigger] c1[x]@.contains(s)
    &&& forall|k: int| 0 <= k < upto ==> #[trigger] seen_next(a, g, c1, node, state, k)
    &&& q0.len() <= q1.len()
    &&& forall|i: int| 0 <= i < q0.len() ==> #[trigger] q1[i] == q0[i]
    &&& forall|x: int, s: usize|
        0 <= x < c0.len() && #[trigger] c1[x]@.contains(s) && !c0[x]@.contains(s) ==> q1.contains(
            (x as usize, s),
        )
}

/// One more edge followed.
pub proof fn lemma_scanned_step(
    a: Seq<StateView>,
    g: Seq<NodeView>,
    c0: Seq<Vec<usize>>,
    c1: Seq<Vec<usize>>,
    c2: Seq<Vec<usize>>,
    q0: Seq<(usize, usize)>,
    q1: Seq<(usize, usize)>,
    q2: Seq<(usize, usize)>,
    node: int,
    state: int,
    k: int,
    next: usize,
)
    requires
        scanned(a, g, c0, c1, q0, q1, node, state, k),
        0 <= k < g[node].forwards.len(),
        0 <= g[node].forwards[k].1 < c1.len(),
        g[node].forwards[k].1 <= usize::MAX,
        next as int == next_state(a, state, g[node].forwards[k].0),
        c2.len() == c1.len(),
        forall|x: int, s: usize|
            0 <= x < c1.len() ==> (#[trigger] c2[x]@.contains(s) <==> c1[x]@.contains(s) || (x
                == g[node].forwards[k].1 && s == next)),
        q2 == (if c1[g[node].forwards[k].1]@.contains(next) {
            q1
        } else {
            q1.push((g[node].forwards[k].1 as usize, next))
        }),
    ensures
        scanned(a, g, c0, c2, q0, q2, node, state, k + 1),
{
    let target = g[node].forwards[k].1;
    assert forall|j: int| 0 <= j < k + 1 implies #[trigger] seen_next(a, g, c2, node, state, j) by {
        if j < k {
            assert(seen_next(a, g, c1, node, state, j));
            let e = g[node].forwards[j];
            let s = choose|s: usize|
                s as int == next_state(a, state, e.0) && #[trigger] c1[e.1]@.contains(s);
            assert(c2[e.1]@.contains(s));
        } else {
            assert(c2[target]@.contains(next));
        }
    }
    assert forall|i: int| 0 <= i < q0.len() implies #[trigger] q2[i] == q0[i] by {
        assert(q1[i] == q0[i]);
    }
    assert forall|x: int, s: usize|
        0 <= x < c0.len() && #[trigger] c2[x]@.contains(s) && !c0[x]@.contains(s) implies q2.contains(
        (x as usize, s),
    ) by {
        if c1[x]@.contains(s) {
            assert(q1.contains((x as usize, s)));
            let i = choose|i: int| 0 <= i < q1.len() && q1[i] == (x as usize, s);
            assert(q2[i] == (x as usize, s));
        } else {
            assert(q2[q1.len() as int] == (target as usize, next));
        }
    }
}

/// As many empty caches as asked for.
pub fn empty_caches(n: usize) -> (cache: Vec<Vec<usize>>)
    ensures
        cache.len() == n,
        forall|x: int| 0 <= x < n ==> (#[trigger] cache[x])@.len() == 0,
{
    let mut cache: Vec<Vec<usize>> = Vec::new();
    let mut i: usize = 0;
    while i < n
        invariant
            i <= n,
            cache.len() == i,
            forall|x: int| 0 <= x < i ==> (#[trigger] cache[x])@.len() == 0,
        decreases n - i,
    {
        cache.push(Vec::new());
        i += 1;
    }
    cache
}

/// Records that node `target` is seen in state `state`, and queues the pair
/// where that is new.
pub fn visit(
    state_id_cache: &mut Vec<Vec<usize>>,
    queue: &mut VecDeque<(usize, usize)>,
    target: usize,
    state: usize,
    Ghost(states): Ghost<int>,
)
    requires
        caches_ok(old(state_id_cache)@, states),
        queue_ok(old(queue)@, old(state_id_cache).len() as int, states),
        target < old(state_id_cache).len(),
        state < states,
    ensures
        final(state_id_cache).len() == old(state_id_cache).len(),
        caches_ok(final(state_id_cache)@, states),
        queue_ok(final(queue)@, final(state_id_cache).len() as int, states),
        final(queue)@.len() - old(queue)@.len() == total_len(final(state_id_cache)@) - total_len(
            old(state_id_cache)@),
        final(queue)@.len() >= old(queue)@.len(),
        forall|x: int, s: usize|
            0 <= x < old(state_id_cache).len() ==> (#[trigger] final(state_id_cache)@[x]@.contains(s)
                <==> old(state_id_cache)@[x]@.contains(s) || (x == target && s == state)),
        final(queue)@ == (if old(state_id_cache)@[target as int]@.contains(state) {
            old(queue)@
        } else {
            old(queue)@.push((target, state))
        }),
        seen_of(final(state_id_cache)@, final(queue)@) == seen_put(
            seen_of(old(state_id_cache)@, old(queue)@),
            target,
            state,
        ),
{
    let ghost c0 = state_id_cache@;
    let added = ids_insert(&mut state_id_cache[target], state);
    proof {
        assert(state_id_cache@ =~= c0.update(target as int, state_id_cache@[target as int]));
        if added {
            assert(cache_view(state_id_cache@) =~= cache_view(c0).update(
                target as int,
                ids_put(c0[target as int]@, state),
            ));
        } else {
            assert(cache_view(state_id_cache@) =~= cache_view(c0));
        }
        lemma_total_len_update(c0, target as int, state_id_cache@[target as int]);
        let v = state_id_cache@[target as int]@;
        assert forall|i: int| 0 <= i < v.len() implies v[i] < states by {
            assert(v.contains(v[i]));
            if c0[target as int]@.contains(v[i]) {
                let j = choose|j: int| 0 <= j < c0[target as int]@.len() && c0[target as int]@[j]
                    == v[i];
            }
        }
    }
    if added {
        queue.push_back((target, state));
    }
}

/// Follows every edge out of `node` from automaton state `state`.
pub fn scan_edges(
    pma: &Vec<PMANode>,
    Ghost(phrases): Ghost<int>,
    lattice: &Vec<LatticeNode>,
    state_id_cache: &mut Vec<Vec<usize>>,
    queue: &mut VecDeque<(usize, usize)>,
    node: usize,
    state: usize,
)
    requires
        automaton_ok(states_view(pma@), phrases),
        nodes_in_range(nodes_view(lattice@)),
        old(state_id_cache).len() == lattice.len(),
        caches_ok(old(state_id_cache)@, pma.len() as int),
        queue_ok(old(queue)@, lattice.len() as int, pma.len() as int),
        node < lattice.len(),
        state < pma.len(),
    ensures
        final(state_id_cache).len() == lattice.len(),
        caches_ok(final(state_id_cache)@, pma.len() as int),
        queue_ok(final(queue)@, lattice.len() as int, pma.len() as int),
        final(queue)@.len() - old(queue)@.len() == total_len(final(state_id_cache)@) - total_len(
            old(state_id_cache)@),
        final(queue)@.len() >= old(queue)@.len(),
        scanned(
            states_view(pma@),
            nodes_view(lattice@),
            old(state_id_cache)@,
            final(state_id_cache)@,
            old(queue)@,
            final(queue)@,
            node as int,
            state as int,
            nodes_view(lattice@)[node as int].forwards.len() as int,
        ),
        seen_of(final(state_id_cache)@, final(queue)@) == scan(
            states_view(pma@),
            nodes_view(lattice@),
            seen_of(old(state_id_cache)@, old(queue)@),
            node,
            state,
            nodes_view(lattice@)[node as int].forwards.len() as int,
        ),
{
    let ghost g = nodes_view(lattice@);
    let ghost a = states_view(pma@);
    let ghost q0 = queue@.len();
    let ghost t0 = total_len(state_id_cache@);
    let ghost cache0 = state_id_cache@;
    let ghost queue0 = queue@;
    let mut k: usize = 0;
    while k < lattice[node].forwards.len()
        invariant
            a == states_view(pma@),
            scanned(a, g, cache0, state_id_cache@, queue0, queue@, node as int, state as int, k as int),
            seen_of(state_id_cache@, queue@) == scan(
                a,
                g,
                seen_of(cache0, queue0),
                node,
                state,
                k as int,
            ),
            g == nodes_view(lattice@),
            automaton_ok(states_view(pma@), phrases),
            nodes_in_range(g),
            state_id_cache.len() == lattice.len(),
            caches_ok(state_id_cache@, pma.len() as int),
            queue_ok(queue@, lattice.len() as int, pma.len() as int),
            node < lattice.len(),
            state < pma.len(),
            k <= lattice[node as int].forwards.len(),
            queue@.len() - q0 == total_len(state_id_cache@) - t0,
            queue@.len() >= q0,
        decreases lattice[node as int].forwards.len() - k,
    {
        let (lattice_edge_str, lattice_edge_target) = lattice[node].forwards[k];
        assert(g[node as int] == lattice@[node as int]@);
        assert(g[node as int].forwards[k as int].1 == lattice_edge_target);
        assert(g[node as int].forwards[k as int].0 == lattice_edge_str@);
        let pma_state_id_new = next_pma_state_id(pma, Ghost(phrases), state, lattice_edge_str);
        assert(next_id(a, state, lattice_edge_str@) == pma_state_id_new);
        assert(g[node as int].forwards[k as int].1 as usize == lattice_edge_target);
        let ghost c1 = state_id_cache@;
        let ghost q1 = queue@;
        visit(state_id_cache, queue, lattice_edge_target, pma_state_id_new, Ghost(pma.len() as int));
        proof {
            lemma_scanned_step(
                a,
                g,
                cache0,
                c1,
                state_id_cache@,
                queue0,
                q1,
                queue@,
                node as int,
                state as int,
                k as int,
                pma_state_id_new,
            );
        }
        k += 1;
    }
    assert(g[node as int] == lattice@[node as int]@);
}

/// Starts the search at the first node `first` of a new branch: for every
/// state in which `branch_start` was seen, the state that the branch's first
/// token `tok` leads to.
fn rewarm(
    pma: &Vec<PMANode>,
    Ghost(phrases): Ghost<int>,
    state_id_cache: &mut Vec<Vec<usize>>,
    queue: &mut VecDeque<(usize, usize)>,
    branch_start: usize,
    first: usize,
    tok: &str,
)
    requires
        automaton_ok(states_view(pma@), phrases),
        caches_ok(old(state_id_cache)@, pma.len() as int),
        queue_ok(old(queue)@, old(state_id_cache).len() as int, pma.len() as int),
        branch_start < old(state_id_cache).len(),
        first < old(state_id_cache).len(),
    ensures
        final(state_id_cache).len() == old(state_id_cache).len(),
        caches_ok(final(state_id_cache)@, pma.len() as int),
        queue_ok(final(queue)@, final(state_id_cache).len() as int, pma.len() as int),
        grown(old(state_id_cache)@, final(state_id_cache)@, old(queue)@, final(queue)@),
        seen_of(final(state_id_cache)@, final(queue)@) == warm(
            states_view(pma@),
            seen_of(old(state_id_cache)@, old(queue)@),
            old(state_id_cache)@[branch_start as int]@,
            tok@,
            first,
            old(state_id_cache)@[branch_start as int]@.len() as int,
        ),
{
    let current = copy_ids(&state_id_cache[branch_start]);
    let ghost n = state_id_cache.len();
    let ghost c0 = state_id_cache@;
    let ghost q0 = queue@;
    let ghost a = states_view(pma@);
    let ghost from = c0[branch_start as int]@;
    let mut k: usize = 0;
    while k < current.len()
        invariant
            grown(c0, state_id_cache@, q0, queue@),
            automaton_ok(states_view(pma@), phrases),
            a == states_view(pma@),
            state_id_cache.len() == n,
            c0.len() == n,
            caches_ok(state_id_cache@, pma.len() as int),
            queue_ok(queue@, n as int, pma.len() as int),
            first < n,
            k <= current.len(),
            below(current@, pma.len() as int),
            current@ == from,
            seen_of(state_id_cache@, queue@) == warm(
                a,
                seen_of(c0, q0),
                from,
                tok@,
                first,
                k as int,
            ),
        decreases current.len() - k,
    {
        let pma_state_id_new = next_pma_state_id(pma, Ghost(phrases), current[k], tok);
        let ghost c1 = state_id_cache@;
        let ghost q1 = queue@;
        visit(state_id_cache, queue, first, pma_state_id_new, Ghost(pma.len() as int));
        proof {
            lemma_visit_grown(c1, state_id_cache@, q1, queue@, first, pma_state_id_new);
            lemma_grown_chain(c0, c1, state_id_cache@, q0, q1, queue@);
            assert(next_id(a, from[k as int], tok@) == pma_state_id_new);
        }
        k += 1;
    }
}

/// The state that `tok` leads to from state `s`, as an id.
pub open spec fn next_id(a: Seq<StateView>, s: usize, tok: Seq<char>) -> usize {
    next_state(a, s as int, tok) as usize
}

/// Copies a list of ids.
fn copy_ids(v: &Vec<usize>) -> (r: Vec<usize>)
    ensures
        r@ == v@,
{
    let mut out: Vec<usize> = Vec::new();
    let mut i: usize = 0;
    while i < v.len()
        invariant
            i <= v.len(),
            out@ == v@.take(i as int),
        decreases v.len() - i,
    {
        out.push(v[i]);
        assert(v@.take(i as int + 1) =~= v@.take(i as int).push(v@[i as int]));
        i += 1;
    }
    assert(v@.take(v.len() as int) =~= v@);
    out
}

/// The caches stay in order where the lattice gets new nodes with empty
/// caches.
proof fn lemma_caches_grow(c0: Seq<Vec<usize>>, c1: Seq<Vec<usize>>, states: int)
    requires
        caches_ok(c0, states),
        c0.len() <= c1.len(),
        forall|i: int| 0 <= i < c0.len() ==> (#[trigger] c1[i]) == c0[i],
        forall|i: int| c0.len() <= i < c1.len() ==> (#[trigger] c1[i])@.len() == 0,
    ensures
        caches_ok(c1, states),
{
    assert forall|x: int| 0 <= x < c1.len() implies increasing((#[trigger] c1[x])@) && below(
        c1[x]@,
        states,
    ) by {
        if x < c0.len() {
            assert(c1[x] == c0[x]);
        }
    }
}

/// The growing lattice as a plain value.
pub open spec fn grow_of(
    g: Seq<NodeView>,
    rank: Seq<nat>,
    cache: Seq<Vec<usize>>,
    queue: Seq<(usize, usize)>,
    inserted: Seq<(usize, usize, usize)>,
) -> Grow {
    Grow { g, rank, seen: seen_of(cache, queue), inserted }
}

/// What holds of the expansion between two splices: the search is in
/// order, the lattice is in order, and the trunk lies at depth 0.
pub open spec fn expanding(
    g: Seq<NodeView>,
    eos: int,
    rank: Seq<nat>,
    topo: Seq<int>,
    words: Seq<Seq<char>>,
    cache: Seq<Vec<usize>>,
    queue: Seq<(usize, usize)>,
    inserted: Seq<(usize, usize, usize)>,
    states: int,
    groups: int,
) -> bool {
    &&& search_ok(g, eos, rank, cache, queue, inserted, states, groups)
    &&& sound(g, eos, topo, words)
    &&& trunk_flat(g, eos)
}

impl<'a> PaRattice<'a> {
    /// Splices every phrase of the group but the phrase that was found in
    /// between `branch_start` and `node`, and starts the search at the first
    /// node of each new branch.
    fn attach_group(
        &self,
        lattice: &mut Vec<LatticeNode<'a>>,
        state_id_cache: &mut Vec<Vec<usize>>,
        queue: &mut VecDeque<(usize, usize)>,
        group_id: usize,
        phrase_id: usize,
        branch_start: usize,
        node: usize,
        depth: usize,
        Ghost(eos): Ghost<int>,
        Ghost(rank): Ghost<Seq<nat>>,
        Ghost(topo): Ghost<Seq<int>>,
        Ghost(words): Ghost<Seq<Seq<char>>>,
        Ghost(inserted): Ghost<Seq<(usize, usize, usize)>>,
    ) -> (r: Ghost<(Seq<nat>, Seq<int>)>)
        requires
            self.wf(),
            expanding(
                nodes_view(old(lattice)@),
                eos,
                rank,
                topo,
                words,
                old(state_id_cache)@,
                old(queue)@,
                inserted,
                self.pma.len() as int,
                self.dict.len() as int,
            ),
            group_id < self.dict.len(),
            phrase_id < self.phrases.len(),
            inserted.len() >= 1,
            inserted.last().0 == group_id,
            node < old(lattice).len(),
            depth < usize::MAX,
            start_ok(nodes_view(old(lattice)@), topo, branch_start as int, node as int),
            connects(
                nodes_view(old(lattice)@),
                branch_start as int,
                node as int,
                tokens_view(self.phrases[phrase_id as int].0@),
            ),
            roomy(
                self.dictionary(),
                eos,
                nodes_view(old(lattice)@),
                inserted.drop_last(),
                inserted.len() - 1,
                0,
            ),
            self.phrases[phrase_id as int].1 == group_id,
            faithful(nodes_view(old(lattice)@), eos, self.dictionary(), words),
        ensures
            faithful(nodes_view(final(lattice)@), eos, self.dictionary(), words),
            grow_of(
                nodes_view(final(lattice)@),
                r@.0,
                final(state_id_cache)@,
                final(queue)@,
                inserted,
            ) == attach(
                self.tables(),
                grow_of(
                    nodes_view(old(lattice)@),
                    rank,
                    old(state_id_cache)@,
                    old(queue)@,
                    inserted,
                ),
                group_id,
                phrase_id,
                branch_start,
                node,
                depth,
                self.dict[group_id as int]@.len() as int,
            ),
            expanding(
                nodes_view(final(lattice)@),
                eos,
                r@.0,
                r@.1,
                words,
                final(state_id_cache)@,
                final(queue)@,
                inserted,
                self.pma.len() as int,
                self.dict.len() as int,
            ),
            graph_kept(nodes_view(old(lattice)@), nodes_view(final(lattice)@), topo, r@.1),
            grown(old(state_id_cache)@, final(state_id_cache)@, old(queue)@, final(queue)@),
            roomy(
                self.dictionary(),
                eos,
                nodes_view(final(lattice)@),
                inserted,
                inserted.len() as int,
                0,
            ),
    {
        let ghost t = self.tables();
        let ghost st_in = grow_of(nodes_view(lattice@), rank, state_id_cache@, queue@, inserted);
        let ghost mut rank = rank;
        let ghost mut topo = topo;
        let ghost g_in = nodes_view(lattice@);
        let ghost topo_in = topo;
        let ghost c_in = state_id_cache@;
        let ghost q_in = queue@;
        let ghost states = self.pma.len() as int;
        let ghost groups = self.dict.len() as int;
        let ghost n_phrases = self.phrases.len() as int;
        let ghost d = self.dictionary();
        let ghost p = tokens_view(self.phrases[phrase_id as int].0@);
        let ghost has_room = room(d, eos) <= usize::MAX;
        proof {
            lemma_graph_kept_same(g_in, topo_in);
            lemma_grown_same(c_in, q_in);
            lemma_triples_bound(inserted, groups, eos);
        }
        let mut pi: usize = 0;
        while pi < self.dict[group_id].len()
            invariant
                self.wf(),
                states == self.pma.len(),
                groups == self.dict.len(),
                n_phrases == self.phrases.len(),
                d == self.dictionary(),
                p == tokens_view(self.phrases[phrase_id as int].0@),
                has_room == (room(d, eos) <= usize::MAX),
                group_id < self.dict.len(),
                phrase_id < self.phrases.len(),
                inserted.len() >= 1,
                inserted.last().0 == group_id,
                inserted.len() <= groups * (eos + 1) * (eos + 1),
                node < lattice.len(),
                depth < usize::MAX,
                g_in.len() <= lattice.len(),
                pi <= self.dict[group_id as int].len(),
                expanding(
                    nodes_view(lattice@),
                    eos,
                    rank,
                    topo,
                    words,
                    state_id_cache@,
                    queue@,
                    inserted,
                    states,
                    groups,
                ),
                graph_kept(g_in, nodes_view(lattice@), topo_in, topo),
                grown(c_in, state_id_cache@, q_in, queue@),
                start_ok(nodes_view(lattice@), topo, branch_start as int, node as int),
                connects(nodes_view(lattice@), branch_start as int, node as int, p),
                self.phrases[phrase_id as int].1 == group_id,
                faithful(nodes_view(lattice@), eos, d, words),
                t == self.tables(),
                grow_of(nodes_view(lattice@), rank, state_id_cache@, queue@, inserted) == attach(
                    t,
                    st_in,
                    group_id,
                    phrase_id,
                    branch_start,
                    node,
                    depth,
                    pi as int,
                ),
                roomy(
                    d,
                    eos,
                    nodes_view(lattice@),
                    inserted.drop_last(),
                    inserted.len() - 1,
                    weight_upto(d[group_id as int], pi as int) as int,
                ),
                has_room ==> forall|k: int|
                    0 <= k < pi ==> connects(
                        nodes_view(lattice@),
                        branch_start as int,
                        node as int,
                        #[trigger] d[group_id as int][k],
                    ),
            decreases self.dict[group_id as int].len() - pi,
        {
            let paraphrase_id = self.dict[group_id][pi];
            let ghost g0 = nodes_view(lattice@);
            let ghost topo0 = topo;
            let ghost c0 = state_id_cache@;
            let ghost q0 = queue@;
            let ghost q_tokens = d[group_id as int][pi as int];
            let ghost rank0 = rank;
            let ghost before = grow_of(g0, rank0, c0, q0, inserted);
            assert(q_tokens == tokens_view(self.phrases[paraphrase_id as int].0@));
            assert(t.dict[group_id as int][pi as int] == paraphrase_id);
            assert(t.phrases[paraphrase_id as int] == q_tokens);
            if paraphrase_id != phrase_id {
                let paraphrase = &self.phrases[paraphrase_id].0;
                proof {
                    if has_room {
                        lemma_fits(
                            d,
                            eos,
                            lattice.len() as int,
                            inserted.len() as int,
                            group_id as int,
                            pi as int,
                        );
                    }
                }
                if lattice.len() <= usize::MAX - paraphrase.len() {
                    let inserted_first_node_id = insert_branch(
                        lattice,
                        state_id_cache,
                        paraphrase,
                        branch_start,
                        node,
                        depth + 1,
                        Ghost(eos),
                        Ghost(rank),
                    );
                    let ghost c1 = state_id_cache@;
                    proof {
                        rank = splice_rank(rank, paraphrase.len() - 1, node as int);
                        lemma_caches_grow(c0, c1, states);
                        lemma_caches_grown(c0, c1, q0);
                        lemma_splice_kept(
                            g0,
                            eos,
                            topo0,
                            words,
                            q_tokens,
                            branch_start as int,
                            node as int,
                            (depth + 1) as nat,
                        );
                        let found = choose|found: int|
                            0 <= found < self.dict@[group_id as int]@.len()
                                && #[trigger] self.dict@[group_id as int]@[found] == phrase_id;
                        assert(d[group_id as int][found] == p);
                        lemma_splice_faithful(
                            g0,
                            eos,
                            topo0,
                            words,
                            d,
                            group_id as int,
                            found,
                            pi as int,
                            branch_start as int,
                            node as int,
                            (depth + 1) as nat,
                        );
                        topo = splice_topo(topo0, paraphrase.len() - 1, node as int);
                    }
                    rewarm(
                        &self.pma,
                        Ghost(n_phrases),
                        state_id_cache,
                        queue,
                        branch_start,
                        inserted_first_node_id,
                        paraphrase[0],
                    );
                    proof {
                        lemma_grown_chain(c0, c1, state_id_cache@, q0, q0, queue@);
                        assert forall|i: int| c0.len() <= i < c1.len() implies (#[trigger] c1[i])@
                            == Seq::<usize>::empty() by {
                            assert(c1[i]@ =~= Seq::<usize>::empty());
                        }
                        assert(cache_view(c1) =~= cache_view(c0) + no_caches(q_tokens.len() - 1));
                        assert(seen_of(c1, q0) == (Seen {
                            cache: before.seen.cache + no_caches(q_tokens.len() - 1),
                            queue: before.seen.queue,
                        }));
                        assert(c1[branch_start as int]@ == before.seen.cache[branch_start as int]);
                        assert(paraphrase[0]@ == q_tokens[0]);
                        assert(grow_of(
                            nodes_view(lattice@),
                            rank,
                            state_id_cache@,
                            queue@,
                            inserted,
                        ) == branch_put(
                            t.automaton,
                            before,
                            q_tokens,
                            branch_start,
                            node,
                            (depth + 1) as nat,
                        ));
                    }
                }
            }
            assert(grow_of(nodes_view(lattice@), rank, state_id_cache@, queue@, inserted) == attach(
                t,
                st_in,
                group_id,
                phrase_id,
                branch_start,
                node,
                depth,
                pi as int + 1,
            ));
            proof {
                let g1 = nodes_view(lattice@);
                lemma_graph_kept_same(g0, topo0);
                assert(graph_kept(g0, g1, topo0, topo));
                lemma_grown_same(c0, q0);
                assert(grown(c0, state_id_cache@, q0, queue@));
                lemma_graph_kept_chain(g_in, g0, g1, topo_in, topo0, topo);
                lemma_grown_chain(c_in, c0, state_id_cache@, q_in, q0, queue@);
                lemma_kept_route(g0, g1, branch_start as int, node as int, p);
                assert(start_ok(g1, topo, branch_start as int, node as int)) by {
                    assert(topo0[branch_start as int] < topo0[node as int]);
                    assert(g1[branch_start as int].forwards.len()
                        >= g0[branch_start as int].forwards.len());
                    assert(g1[node as int].backwards.len() >= g0[node as int].backwards.len());
                }
                if has_room {
                    lemma_attached_kept(g0, g1, d, inserted.drop_last());
                    assert(connects(g1, branch_start as int, node as int, q_tokens));
                    assert forall|k: int| 0 <= k < pi + 1 implies connects(
                        g1,
                        branch_start as int,
                        node as int,
                        #[trigger] d[group_id as int][k],
                    ) by {
                        if k < pi {
                            lemma_kept_route(
                                g0,
                                g1,
                                branch_start as int,
                                node as int,
                                d[group_id as int][k],
                            );
                        }
                    }
                }
            }
            pi += 1;
        }
        proof {
            let g1 = nodes_view(lattice@);
            if has_room {
                lemma_filled(d, eos, g1.len() as int, inserted.len() as int, group_id as int);
                assert(group_joined(g1, d[group_id as int], branch_start as int, node as int));
                assert forall|k: int| 0 <= k < inserted.len() implies group_attached(
                    g1,
                    d[(#[trigger] inserted[k]).0 as int],
                ) by {
                    if k < inserted.len() - 1 {
                        assert(inserted.drop_last()[k] == inserted[k]);
                    }
                }
            }
        }
        Ghost((rank, topo))
    }

    /// For each walk back from `node` that spells the phrase found, attaches
    /// the group of the phrase in between the walk's start and `node`, unless
    /// the group was attached between the same trunk nodes before.
    fn attach_walks(
        &self,
        lattice: &mut Vec<LatticeNode<'a>>,
        state_id_cache: &mut Vec<Vec<usize>>,
        queue: &mut VecDeque<(usize, usize)>,
        inserted_branches: &mut Vec<(usize, usize, usize)>,
        starts: &Vec<(usize, usize)>,
        group_id: usize,
        phrase_id: usize,
        trunk_end: usize,
        node: usize,
        eos: usize,
        max_depth: usize,
        Ghost(rank): Ghost<Seq<nat>>,
        Ghost(topo): Ghost<Seq<int>>,
        Ghost(words): Ghost<Seq<Seq<char>>>,
    ) -> (r: Ghost<(Seq<nat>, Seq<int>)>)
        requires
            self.wf(),
            expanding(
                nodes_view(old(lattice)@),
                eos as int,
                rank,
                topo,
                words,
                old(state_id_cache)@,
                old(queue)@,
                old(inserted_branches)@,
                self.pma.len() as int,
                self.dict.len() as int,
            ),
            group_id < self.dict.len(),
            phrase_id < self.phrases.len(),
            trunk_end <= eos,
            node < old(lattice).len(),
            walks_ok(starts@, old(lattice).len() as int, max_depth as int),
            forall|k: int|
                0 <= k < starts.len() ==> start_ok(
                    nodes_view(old(lattice)@),
                    topo,
                    (#[trigger] starts[k]).0 as int,
                    node as int,
                ),
            forall|k: int|
                0 <= k < starts.len() ==> connects(
                    nodes_view(old(lattice)@),
                    (#[trigger] starts[k]).0 as int,
                    node as int,
                    tokens_view(self.phrases[phrase_id as int].0@),
                ),
            roomy(
                self.dictionary(),
                eos as int,
                nodes_view(old(lattice)@),
                old(inserted_branches)@,
                old(inserted_branches).len() as int,
                0,
            ),
            self.phrases[phrase_id as int].1 == group_id,
            faithful(nodes_view(old(lattice)@), eos as int, self.dictionary(), words),
        ensures
            faithful(nodes_view(final(lattice)@), eos as int, self.dictionary(), words),
            grow_of(
                nodes_view(final(lattice)@),
                r@.0,
                final(state_id_cache)@,
                final(queue)@,
                final(inserted_branches)@,
            ) == walks_put(
                self.tables(),
                grow_of(
                    nodes_view(old(lattice)@),
                    rank,
                    old(state_id_cache)@,
                    old(queue)@,
                    old(inserted_branches)@,
                ),
                starts@,
                group_id,
                phrase_id,
                trunk_end,
                node,
                eos as int,
                starts.len() as int,
            ),
            expanding(
                nodes_view(final(lattice)@),
                eos as int,
                r@.0,
                r@.1,
                words,
                final(state_id_cache)@,
                final(queue)@,
                final(inserted_branches)@,
                self.pma.len() as int,
                self.dict.len() as int,
            ),
            graph_kept(nodes_view(old(lattice)@), nodes_view(final(lattice)@), topo, r@.1),
            grown(old(state_id_cache)@, final(state_id_cache)@, old(queue)@, final(queue)@),
            triples_kept(old(inserted_branches)@, final(inserted_branches)@),
            roomy(
                self.dictionary(),
                eos as int,
                nodes_view(final(lattice)@),
                final(inserted_branches)@,
                final(inserted_branches).len() as int,
                0,
            ),
            starts.len() > 0 ==> group_seen(final(inserted_branches)@, group_id as int),
            final(inserted_branches).len() == old(inserted_branches).len() ==> final(lattice).len()
                == old(lattice).len() && final(state_id_cache)@ == old(state_id_cache)@
                && final(queue)@ == old(queue)@,
    {
        let ghost t = self.tables();
        let ghost st_in = grow_of(
            nodes_view(lattice@),
            rank,
            state_id_cache@,
            queue@,
            inserted_branches@,
        );
        let ghost mut rank = rank;
        let ghost mut topo = topo;
        let ghost g_in = nodes_view(lattice@);
        let ghost topo_in = topo;
        let ghost c_in = state_id_cache@;
        let ghost q_in = queue@;
        let ghost ins_in = inserted_branches@;
        let ghost len_in = lattice.len();
        let ghost states = self.pma.len() as int;
        let ghost groups = self.dict.len() as int;
        let ghost d = self.dictionary();
        let ghost p = tokens_view(self.phrases[phrase_id as int].0@);
        proof {
            lemma_graph_kept_same(g_in, topo_in);
            lemma_grown_same(c_in, q_in);
        }
        let mut si: usize = 0;
        while si < starts.len()
            invariant
                self.wf(),
                states == self.pma.len(),
                groups == self.dict.len(),
                d == self.dictionary(),
                p == tokens_view(self.phrases[phrase_id as int].0@),
                group_id < self.dict.len(),
                phrase_id < self.phrases.len(),
                trunk_end <= eos,
                node < lattice.len(),
                node < g_in.len(),
                len_in == g_in.len(),
                si <= starts.len(),
                walks_ok(starts@, len_in as int, max_depth as int),
                expanding(
                    nodes_view(lattice@),
                    eos as int,
                    rank,
                    topo,
                    words,
                    state_id_cache@,
                    queue@,
                    inserted_branches@,
                    states,
                    groups,
                ),
                graph_kept(g_in, nodes_view(lattice@), topo_in, topo),
                grown(c_in, state_id_cache@, q_in, queue@),
                triples_kept(ins_in, inserted_branches@),
                forall|k: int|
                    0 <= k < starts.len() ==> start_ok(
                        nodes_view(lattice@),
                        topo,
                        (#[trigger] starts[k]).0 as int,
                        node as int,
                    ),
                forall|k: int|
                    0 <= k < starts.len() ==> connects(
                        nodes_view(lattice@),
                        (#[trigger] starts[k]).0 as int,
                        node as int,
                        p,
                    ),
                roomy(
                    d,
                    eos as int,
                    nodes_view(lattice@),
                    inserted_branches@,
                    inserted_branches.len() as int,
                    0,
                ),
                si > 0 ==> group_seen(inserted_branches@, group_id as int),
                t == self.tables(),
                grow_of(
                    nodes_view(lattice@),
                    rank,
                    state_id_cache@,
                    queue@,
                    inserted_branches@,
                ) == walks_put(
                    t,
                    st_in,
                    starts@,
                    group_id,
                    phrase_id,
                    trunk_end,
                    node,
                    eos as int,
                    si as int,
                ),
                self.phrases[phrase_id as int].1 == group_id,
                faithful(nodes_view(lattice@), eos as int, d, words),
                inserted_branches.len() == ins_in.len() ==> lattice.len() == len_in
                    && state_id_cache@ == c_in && queue@ == q_in,
            decreases starts.len() - si,
        {
            let (branch_start, depth) = starts[si];
            let ghost g0 = nodes_view(lattice@);
            let ghost topo0 = topo;
            let ghost c0 = state_id_cache@;
            let ghost q0 = queue@;
            let ghost ins0 = inserted_branches@;
            let ghost rank0 = rank;
            let ghost before = grow_of(g0, rank0, c0, q0, ins0);
            assert(start_ok(g0, topo0, starts[si as int].0 as int, node as int));
            assert(connects(g0, starts[si as int].0 as int, node as int, p));
            let trunk_start = main_branch_bw(lattice, branch_start, eos, Ghost(rank));
            if !triples_contains(inserted_branches, (group_id, trunk_start, trunk_end)) {
                inserted_branches.push((group_id, trunk_start, trunk_end));
                proof {
                    assert(inserted_branches@.drop_last() =~= ins0);
                    assert(triples_ok(inserted_branches@, groups, eos as int)) by {
                        assert forall|i: int, j: int|
                            0 <= i < j < inserted_branches.len() implies inserted_branches[i]
                            != inserted_branches[j] by {
                            if j == ins0.len() {
                                assert(ins0.contains(ins0[i]));
                            }
                        }
                    }
                }
                let r = self.attach_group(
                    lattice,
                    state_id_cache,
                    queue,
                    group_id,
                    phrase_id,
                    branch_start,
                    node,
                    depth,
                    Ghost(eos as int),
                    Ghost(rank),
                    Ghost(topo),
                    Ghost(words),
                    Ghost(inserted_branches@),
                );
                proof {
                    rank = r@.0;
                    topo = r@.1;
                    let g1 = nodes_view(lattice@);
                    lemma_starts_kept(g0, g1, topo0, topo, starts@, node as int, p);
                    lemma_graph_kept_chain(g_in, g0, g1, topo_in, topo0, topo);
                    lemma_grown_chain(c_in, c0, state_id_cache@, q_in, q0, queue@);
                    assert(inserted_branches@[ins0.len() as int].0 == group_id);
                }
            } else {
                proof {
                    let k = choose|k: int|
                        0 <= k < ins0.len() && ins0[k] == (group_id, trunk_start, trunk_end);
                    assert(ins0[k].0 == group_id);
                }
            }
            proof {
                assert(crate::expand::trunk_start(g0, starts@[si as int].0 as int, eos as int)
                    as usize == trunk_start);
                assert(t.dict[group_id as int].len() == self.dict[group_id as int]@.len());
                assert(grow_of(
                    nodes_view(lattice@),
                    rank,
                    state_id_cache@,
                    queue@,
                    inserted_branches@,
                ) == walk_put(
                    t,
                    before,
                    starts@[si as int],
                    group_id,
                    phrase_id,
                    trunk_end,
                    node,
                    eos as int,
                ));
            }
            si += 1;
        }
        Ghost((rank, topo))
    }

    /// Attaches the paraphrases of every phrase that ends at `node` in state
    /// `state`. For each walk back from `node` that spells the phrase, the
    /// other phrases of its group are spliced in between the walk's start and
    /// `node`, unless the group was attached between the same trunk nodes
    /// before.
    fn expand_matches(
        &self,
        lattice: &mut Vec<LatticeNode<'a>>,
        state_id_cache: &mut Vec<Vec<usize>>,
        queue: &mut VecDeque<(usize, usize)>,
        inserted_branches: &mut Vec<(usize, usize, usize)>,
        node: usize,
        state: usize,
        eos: usize,
        max_depth: usize,
        Ghost(rank): Ghost<Seq<nat>>,
        Ghost(topo): Ghost<Seq<int>>,
        Ghost(words): Ghost<Seq<Seq<char>>>,
    ) -> (r: Ghost<(Seq<nat>, Seq<int>)>)
        requires
            self.wf(),
            expanding(
                nodes_view(old(lattice)@),
                eos as int,
                rank,
                topo,
                words,
                old(state_id_cache)@,
                old(queue)@,
                old(inserted_branches)@,
                self.pma.len() as int,
                self.dict.len() as int,
            ),
            roomy(
                self.dictionary(),
                eos as int,
                nodes_view(old(lattice)@),
                old(inserted_branches)@,
                old(inserted_branches).len() as int,
                0,
            ),
            node < old(lattice).len(),
            state < self.pma.len(),
            faithful(nodes_view(old(lattice)@), eos as int, self.dictionary(), words),
        ensures
            faithful(nodes_view(final(lattice)@), eos as int, self.dictionary(), words),
            grow_of(
                nodes_view(final(lattice)@),
                r@.0,
                final(state_id_cache)@,
                final(queue)@,
                final(inserted_branches)@,
            ) == matches_put(
                self.tables(),
                grow_of(
                    nodes_view(old(lattice)@),
                    rank,
                    old(state_id_cache)@,
                    old(queue)@,
                    old(inserted_branches)@,
                ),
                node,
                state,
                eos as int,
                max_depth as nat,
                states_view(self.pma@)[state as int].matched.len() as int,
            ),
            expanding(
                nodes_view(final(lattice)@),
                eos as int,
                r@.0,
                r@.1,
                words,
                final(state_id_cache)@,
                final(queue)@,
                final(inserted_branches)@,
                self.pma.len() as int,
                self.dict.len() as int,
            ),
            roomy(
                self.dictionary(),
                eos as int,
                nodes_view(final(lattice)@),
                final(inserted_branches)@,
                final(inserted_branches).len() as int,
                0,
            ),
            graph_kept(nodes_view(old(lattice)@), nodes_view(final(lattice)@), topo, r@.1),
            grown(old(state_id_cache)@, final(state_id_cache)@, old(queue)@, final(queue)@),
            triples_kept(old(inserted_branches)@, final(inserted_branches)@),
            node <= eos && max_depth >= 1 && state as int == trunk_state(
                states_view(self.pma@),
                words,
                node as int,
            ) ==> handled(self.dictionary(), words, final(inserted_branches)@, node as int),
            final(inserted_branches).len() == old(inserted_branches).len() ==> final(lattice).len()
                == old(lattice).len() && final(state_id_cache)@ == old(state_id_cache)@
                && final(queue)@ == old(queue)@,
    {
        let ghost t = self.tables();
        let ghost st_in = grow_of(
            nodes_view(lattice@),
            rank,
            state_id_cache@,
            queue@,
            inserted_branches@,
        );
        let ghost mut rank = rank;
        let ghost mut topo = topo;
        let ghost g_in = nodes_view(lattice@);
        let ghost topo_in = topo;
        let ghost c_in = state_id_cache@;
        let ghost q_in = queue@;
        let ghost ins_in = inserted_branches@;
        let ghost len_in = lattice.len();
        let ghost states = self.pma.len() as int;
        let ghost groups = self.dict.len() as int;
        let ghost n_phrases = self.phrases.len() as int;
        let ghost a = states_view(self.pma@);
        let ghost d = self.dictionary();
        let ghost wanted = node <= eos && max_depth >= 1;
        proof {
            lemma_graph_kept_same(g_in, topo_in);
            lemma_grown_same(c_in, q_in);
        }
        let mut mi: usize = 0;
        while mi < self.pma[state].matched.len()
            invariant
                self.wf(),
                states == self.pma.len(),
                groups == self.dict.len(),
                n_phrases == self.phrases.len(),
                a == states_view(self.pma@),
                d == self.dictionary(),
                wanted == (node <= eos && max_depth >= 1),
                state < self.pma.len(),
                node < lattice.len(),
                node < g_in.len(),
                len_in == g_in.len(),
                mi <= self.pma[state as int].matched.len(),
                expanding(
                    nodes_view(lattice@),
                    eos as int,
                    rank,
                    topo,
                    words,
                    state_id_cache@,
                    queue@,
                    inserted_branches@,
                    states,
                    groups,
                ),
                roomy(
                    d,
                    eos as int,
                    nodes_view(lattice@),
                    inserted_branches@,
                    inserted_branches.len() as int,
                    0,
                ),
                graph_kept(g_in, nodes_view(lattice@), topo_in, topo),
                grown(c_in, state_id_cache@, q_in, queue@),
                triples_kept(ins_in, inserted_branches@),
                faithful(nodes_view(lattice@), eos as int, d, words),
                t == self.tables(),
                a[state as int] == self.pma@[state as int]@,
                grow_of(
                    nodes_view(lattice@),
                    rank,
                    state_id_cache@,
                    queue@,
                    inserted_branches@,
                ) == matches_put(t, st_in, node, state, eos as int, max_depth as nat, mi as int),
                forall|m: int|
                    0 <= m < mi ==> match_done(
                        self.phrases@,
                        words,
                        inserted_branches@,
                        node as int,
                        wanted,
                        #[trigger] a[state as int].matched[m],
                    ),
                inserted_branches.len() == ins_in.len() ==> lattice.len() == len_in
                    && state_id_cache@ == c_in && queue@ == q_in,
            decreases self.pma[state as int].matched.len() - mi,
        {
            let phrase_id = self.pma[state].matched[mi];
            proof {
                assert(state_ok(a, state as int, n_phrases));
                assert(a[state as int] == self.pma@[state as int]@);
                assert(a[state as int].matched[mi as int] == phrase_id);
            }
            let phrase = &self.phrases[phrase_id].0;
            let group_id = self.phrases[phrase_id].1;
            let trunk_end = main_branch_fw(lattice, node, eos, Ghost(rank));
            let starts = backward_match(phrase, lattice, node, max_depth);
            let ghost g0 = nodes_view(lattice@);
            let ghost topo0 = topo;
            let ghost c0 = state_id_cache@;
            let ghost q0 = queue@;
            let ghost ins0 = inserted_branches@;
            let ghost p = tokens_view(phrase@);
            let ghost rank0 = rank;
            let ghost before = grow_of(g0, rank0, c0, q0, ins0);
            proof {
                let walks = walks_back(g0, p, node as int, max_depth as nat, 0);
                assert(starts@ =~= walk_ids(walks)) by {
                    assert forall|i: int| 0 <= i < starts.len() implies starts@[i] == walk_ids(
                        walks,
                    )[i] by {
                        assert(walks_view(starts@)[i] == walks[i]);
                    }
                }
                assert(t.phrases[phrase_id as int] == p);
                assert(t.groups[phrase_id as int] == group_id);
                assert(crate::expand::trunk_end(g0, rank0, node as int, eos as int) as usize
                    == trunk_end);
                assert forall|k: int| 0 <= k < starts.len() implies start_ok(
                    g0,
                    topo0,
                    (#[trigger] starts[k]).0 as int,
                    node as int,
                ) && connects(g0, starts[k].0 as int, node as int, p) by {
                    assert(walks_view(starts@)[k].0 == starts[k].0);
                    lemma_walks_sound(
                        g0,
                        eos as int,
                        topo0,
                        words,
                        p,
                        node as int,
                        max_depth as nat,
                        0,
                        k,
                    );
                    lemma_walk_route(
                        g0,
                        eos as int,
                        topo0,
                        words,
                        p,
                        node as int,
                        max_depth as nat,
                        0,
                        k,
                    );
                    assert(p.subrange(0, p.len() as int) =~= p);
                }
                if wanted && occurs(words, p, node as int) {
                    lemma_trunk_walk(
                        g0,
                        eos as int,
                        topo0,
                        words,
                        p,
                        node as int,
                        max_depth as nat,
                        0,
                    );
                    assert(starts.len() > 0);
                }
            }
            let r = self.attach_walks(
                lattice,
                state_id_cache,
                queue,
                inserted_branches,
                &starts,
                group_id,
                phrase_id,
                trunk_end,
                node,
                eos,
                max_depth,
                Ghost(rank),
                Ghost(topo),
                Ghost(words),
            );
            proof {
                rank = r@.0;
                topo = r@.1;
                let g1 = nodes_view(lattice@);
                assert(grow_of(g1, rank, state_id_cache@, queue@, inserted_branches@) == match_put(
                    t,
                    before,
                    phrase_id,
                    node,
                    eos as int,
                    max_depth as nat,
                ));
                lemma_graph_kept_chain(g_in, g0, g1, topo_in, topo0, topo);
                lemma_grown_chain(c_in, c0, state_id_cache@, q_in, q0, queue@);
                assert forall|m: int| 0 <= m < mi + 1 implies match_done(
                    self.phrases@,
                    words,
                    inserted_branches@,
                    node as int,
                    wanted,
                    #[trigger] a[state as int].matched[m],
                ) by {
                    let id = a[state as int].matched[m];
                    if m < mi {
                        assert(match_done(self.phrases@, words, ins0, node as int, wanted, id));
                        if wanted && occurs(words, phrase_list(self.phrases@)[id], node as int) {
                            lemma_group_seen_kept(
                                ins0,
                                inserted_branches@,
                                self.phrases@[id].1 as int,
                            );
                        }
                    }
                }
            }
            mi += 1;
        }
        proof {
            if wanted && state as int == trunk_state(a, words, node as int) {
                assert forall|gi: int, j: int|
                    0 <= gi < d.len() && 0 <= j < d[gi].len() && #[trigger] occurs(
                        words,
                        d[gi][j],
                        node as int,
                    ) implies group_seen(inserted_branches@, gi) by {
                    let id = self.dict@[gi]@[j] as int;
                    lemma_run_reports(a, phrase_list(self.phrases@), words.take(node as int), id);
                    assert(a[state as int].matched.contains(id));
                    let m = choose|m: int|
                        0 <= m < a[state as int].matched.len() && a[state as int].matched[m] == id;
                    assert(match_done(
                        self.phrases@,
                        words,
                        inserted_branches@,
                        node as int,
                        wanted,
                        a[state as int].matched[m],
                    ));
                }
            }
        }
        Ghost((rank, topo))
    }

    /// The lattice of the paraphrases of a sentence. It is made of the
    /// sentence's chain by attaching, breadth first, the paraphrases of every
    /// dictionary phrase found in it, through nodes of depth below
    /// `max_depth`; with `shrink`, nodes that cannot be told apart are then
    /// merged; at last the nodes are numbered from the source on, and those
    /// that were merged away are left out: the lattice is what these three
    /// steps make of the sentence, one after the other. Every sentence that
    /// the lattice
    /// spells from its first to its last node comes of the sentence by
    /// replacing phrases by phrases of their groups. Where a phrase of a
    /// group stands in the sentence, some two nodes of the lattice are joined
    /// by a route for every phrase of the group, as long as the lattice has
    /// room for its nodes.
    pub fn get_lattice(&self, words: &[&'a str], shrink: bool, max_depth: usize) -> (l: Lattice<'a>)
        requires
            self.wf(),
            words.len() < usize::MAX,
        ensures
            l.wf(),
            valid_nodes(l@),
            spells(l@, tokens_view(words@)),
            max_depth == 0 ==> l@ == chain_nodes(tokens_view(words@)),
            max_depth >= 1 && room(self.dictionary(), words.len() as int) <= usize::MAX
                ==> paraphrased(l@, self.dictionary(), tokens_view(words@)),
            faithful(l@, l@.len() - 1, self.dictionary(), tokens_view(words@)),
            max_depth >= 1 ==> exists|grown: Seq<NodeView>, merged: Seq<NodeView>, numbers: Kahn|
                #[trigger] made_of(
                    self.tables(),
                    tokens_view(words@),
                    shrink,
                    max_depth as nat,
                    grown,
                    merged,
                    numbers,
                    l@,
                ),
    {
        let ghost w = tokens_view(words@);
        if max_depth == 0 {
            let chain = make_chain(words);
            proof {
                lemma_chain_valid(w);
                lemma_chain_faithful(self.dictionary(), w);
            }
            let l = Lattice::from_nodes(chain).unwrap();
            proof {
                l.lemma_valid();
            }
            return l;
        }
        let eos = words.len();
        let ghost states = self.pma.len() as int;
        let ghost groups = self.dict.len() as int;
        let ghost a = states_view(self.pma@);
        let ghost d = self.dictionary();
        let mut lattice = make_chain(words);
        let mut state_id_cache = empty_caches(eos + 1);
        let mut inserted_branches: Vec<(usize, usize, usize)> = Vec::new();
        let mut queue: VecDeque<(usize, usize)> = VecDeque::new();
        let ghost mut rank = chain_rank(w);
        let ghost mut topo = chain_topo(w);
        let ghost mut done: Set<int> = Set::empty();
        let ghost t = self.tables();
        let ghost mut steps: nat = 0;
        let ghost c_start = state_id_cache@;
        proof {
            lemma_chain_growing(w);
            lemma_chain_sound(w);
            lemma_chain_faithful(d, w);
            assert(room(d, eos as int) >= eos + 1) by (nonlinear_arith)
                requires
                    room(d, eos as int) == (eos + 1) + d.len() * (eos + 1) * (eos + 1) * heaviest(d),
                    d.len() >= 0,
                    eos >= 0,
                    heaviest(d) >= 0,
            ;
        }
        visit(&mut state_id_cache, &mut queue, 0, 0, Ghost(states));
        proof {
            assert(w.take(0) =~= Seq::empty());
            assert(state_id_cache@[0]@.contains(0usize));
            assert(queue@[0] == (0usize, 0usize));
            assert(cache_view(c_start) =~= no_caches(eos as int + 1)) by {
                assert forall|i: int| 0 <= i < c_start.len() implies (#[trigger] c_start[i])@
                    == Seq::<usize>::empty() by {
                    assert(c_start[i]@ =~= Seq::<usize>::empty());
                }
            }
            assert(ids_put(Seq::<usize>::empty(), 0usize) =~= seq![0usize]);
            assert(queue@ =~= seq![(0usize, 0usize)]);
            assert(inserted_branches@ =~= Seq::empty());
            assert(grow_of(
                nodes_view(lattice@),
                rank,
                state_id_cache@,
                queue@,
                inserted_branches@,
            ) == grow_start(w));
        }
        while queue.len() > 0
            invariant
                self.wf(),
                states == self.pma.len(),
                groups == self.dict.len(),
                a == states_view(self.pma@),
                d == self.dictionary(),
                eos == words.len(),
                max_depth >= 1,
                expanding(
                    nodes_view(lattice@),
                    eos as int,
                    rank,
                    topo,
                    w,
                    state_id_cache@,
                    queue@,
                    inserted_branches@,
                    states,
                    groups,
                ),
                roomy(
                    d,
                    eos as int,
                    nodes_view(lattice@),
                    inserted_branches@,
                    inserted_branches.len() as int,
                    0,
                ),
                w == tokens_view(words@),
                faithful(nodes_view(lattice@), eos as int, d, w),
                t == self.tables(),
                grow_of(
                    nodes_view(lattice@),
                    rank,
                    state_id_cache@,
                    queue@,
                    inserted_branches@,
                ) == grow_run(t, grow_start(w), eos as int, max_depth as nat, steps),
                trunk_watch(a, w, state_id_cache@, queue@, done),
                forall|i: int| #[trigger] done.contains(i) ==> handled(d, w, inserted_branches@, i),
            decreases
                    groups * (eos + 1) * (eos + 1) - inserted_branches.len(),
                    2 * (lattice.len() * states - total_len(state_id_cache@)) + queue@.len(),
        {
            let ghost q0 = queue@;
            let ghost c0 = state_id_cache@;
            let ghost g0 = nodes_view(lattice@);
            let ghost ins0 = inserted_branches@;
            let ghost rank0 = rank;
            let ghost st0 = grow_of(g0, rank0, c0, q0, ins0);
            let (lattice_node_id, pma_state_id) = queue.pop_front().unwrap();
            assert(queue@ =~= q0.subrange(1, q0.len() as int));
            assert(queue@ =~= q0.drop_first());
            scan_edges(
                &self.pma,
                Ghost(self.phrases.len() as int),
                &lattice,
                &mut state_id_cache,
                &mut queue,
                lattice_node_id,
                pma_state_id,
            );
            let ghost c1 = state_id_cache@;
            let ghost q1 = queue@;
            let r = self.expand_matches(
                &mut lattice,
                &mut state_id_cache,
                &mut queue,
                &mut inserted_branches,
                lattice_node_id,
                pma_state_id,
                eos,
                max_depth,
                Ghost(rank),
                Ghost(topo),
                Ghost(w),
            );
            proof {
                lemma_trunk_edges(g0, eos as int, topo, w);
                lemma_watch_step(a, g0, w, c0, c1, state_id_cache@, q0, q1, queue@, done);
                let mine = lattice_node_id <= eos && pma_state_id as int == trunk_state(
                    a,
                    w,
                    lattice_node_id as int,
                );
                assert forall|i: int|
                    #[trigger] done.contains(i) || (mine && i == lattice_node_id) implies handled(
                    d,
                    w,
                    inserted_branches@,
                    i,
                ) by {
                    if done.contains(i) {
                        assert(handled(d, w, ins0, i));
                        assert forall|gi: int, j: int|
                            0 <= gi < d.len() && 0 <= j < d[gi].len() && #[trigger] occurs(
                                w,
                                d[gi][j],
                                i,
                            ) implies group_seen(inserted_branches@, gi) by {
                            lemma_group_seen_kept(ins0, inserted_branches@, gi);
                        }
                    }
                }
                if mine {
                    done = done.insert(lattice_node_id as int);
                }
                rank = r@.0;
                topo = r@.1;
                lemma_triples_bound(inserted_branches@, groups, eos as int);
                lemma_total_len_bound(state_id_cache@, states);
                assert(grow_of(
                    nodes_view(lattice@),
                    rank,
                    state_id_cache@,
                    queue@,
                    inserted_branches@,
                ) == grow_step(t, st0, eos as int, max_depth as nat));
                steps = steps + 1;
            }
        }
        proof {
            let g = nodes_view(lattice@);
            if room(d, eos as int) <= usize::MAX {
                assert(queue@ =~= Seq::empty());
                assert forall|gi: int, j: int, end: int|
                    0 <= gi < d.len() && 0 <= j < d[gi].len() && #[trigger] occurs(
                        w,
                        d[gi][j],
                        end,
                    ) implies group_attached(g, d[gi]) by {
                    lemma_trunk_done(a, w, state_id_cache@, done, end);
                    assert(handled(d, w, inserted_branches@, end));
                    let k = choose|k: int|
                        0 <= k < inserted_branches.len() && (#[trigger] inserted_branches[k]).0
                            == gi;
                    assert(group_attached(g, d[inserted_branches[k].0 as int]));
                }
                assert(paraphrased(g, d, w));
            }
        }
        let ghost g_grown = nodes_view(lattice@);
        proof {
            assert(grow_run(t, grow_start(w), eos as int, max_depth as nat, steps).seen.queue.len()
                == 0);
            assert(grown_to(t, w, max_depth as nat, g_grown));
        }
        if shrink {
            assert(in_order(g_grown, eos as int, w));
            shrink_lattice(&mut lattice);
            proof {
                topo = choose|order: Seq<int>| sound(nodes_view(lattice@), eos as int, order, w);
                let ren = choose|ren: Seq<int>| #[trigger]
                    carried(g_grown, nodes_view(lattice@), ren);
                if room(d, eos as int) <= usize::MAX {
                    self.lemma_phrases();
                    lemma_carried_paraphrased(g_grown, nodes_view(lattice@), ren, d, w);
                }
                lemma_no_more_faithful(
                    g_grown,
                    eos as int,
                    nodes_view(lattice@),
                    eos as int,
                    d,
                    w,
                );
            }
        }
        let ghost g_shrunk = nodes_view(lattice@);
        let (new_lattice, Ghost(numbers)) = index_left_to_right(
            &lattice,
            Ghost(eos as int),
            Ghost(topo),
            Ghost(w),
        );
        proof {
            if room(d, eos as int) <= usize::MAX {
                self.lemma_phrases();
                lemma_carried_paraphrased(g_shrunk, nodes_view(new_lattice@), numbers.map, d, w);
            }
            lemma_no_more_faithful(
                g_shrunk,
                eos as int,
                nodes_view(new_lattice@),
                new_lattice.len() - 1,
                d,
                w,
            );
            assert(made_of(
                t,
                w,
                shrink,
                max_depth as nat,
                g_grown,
                g_shrunk,
                numbers,
                nodes_view(new_lattice@),
            ));
        }
        Lattice::from_valid(new_lattice)
    }

    /// No phrase of the dictionary is empty.
    proof fn lemma_phrases(&self)
        requires
            self.wf(),
        ensures
            forall|gi: int, j: int|
                0 <= gi < self.dictionary().len() && 0 <= j < self.dictionary()[gi].len() ==> (
                #[trigger] self.dictionary()[gi][j]).len() > 0,
    {
        let d = self.dictionary();
        assert forall|gi: int, j: int| 0 <= gi < d.len() && 0 <= j < d[gi].len() implies (
        #[trigger] d[gi][j]).len() > 0 by {
            let id = self.dict@[gi]@[j];
            assert(self.phrases@[id as int].0@.len() > 0);
        }
    }
}

/// The lattice `l` is made of the sentence: the chain of the sentence has
/// grown to the lattice `grown`, whose nodes were merged to give `merged`
/// where `shrink` is set, and the nodes of `merged` were numbered anew as
/// `numbers` says.
pub open spec fn made_of(
    t: Tables,
    words: Seq<Seq<char>>,
    shrink: bool,
    max_depth: nat,
    grown: Seq<NodeView>,
    merged: Seq<NodeView>,
    numbers: Kahn,
    l: Seq<NodeView>,
) -> bool {
    &&& grown_to(t, words, max_depth, grown)
    &&& if shrink {
        merged_down(grown, merged, words.len() as int)
    } else {
        merged == grown
    }
    &&& kahn_end(merged, numbers)
    &&& l == renumbered(merged, numbers.order, numbers.map)
}

/// A sentence is made into one lattice.
pub proof fn lemma_made_of_one(
    t: Tables,
    words: Seq<Seq<char>>,
    shrink: bool,
    max_depth: nat,
    grown: Seq<NodeView>,
    merged: Seq<NodeView>,
    numbers: Kahn,
    l: Seq<NodeView>,
    grown2: Seq<NodeView>,
    merged2: Seq<NodeView>,
    numbers2: Kahn,
    l2: Seq<NodeView>,
)
    requires
        made_of(t, words, shrink, max_depth, grown, merged, numbers, l),
        made_of(t, words, shrink, max_depth, grown2, merged2, numbers2, l2),
    ensures
        l == l2,
{
    lemma_grown_to_one(t, words, max_depth, grown, grown2);
    if shrink {
        lemma_shrunk_to_one(grown, merged, merged2);
    }
    lemma_kahn_end_unique(merged, numbers, numbers2);
}

/// The phrase with the given id is dealt with: where it stands in the
/// sentence and ends before word `end`, its group has a triple in the
/// record.
pub open spec fn match_done<'a>(
    phrases: Seq<(Vec<&'a str>, usize)>,
    words: Seq<Seq<char>>,
    inserted: Seq<(usize, usize, usize)>,
    end: int,
    wanted: bool,
    id: int,
) -> bool {
    wanted && occurs(words, phrase_list(phrases)[id], end) ==> group_seen(
        inserted,
        phrases[id].1 as int,
    )
}

/// Every node of the trunk but the sink has the edge with its word to the
/// next.
pub proof fn lemma_trunk_edges(g: Seq<NodeView>, eos: int, topo: Seq<int>, words: Seq<Seq<char>>)
    requires
        sound(g, eos, topo, words),
    ensures
        forall|i: int| 0 <= i < words.len() ==> (#[trigger] g[i]).forwards.contains((words[i], i + 1)),
{
    assert forall|i: int| 0 <= i < words.len() implies (#[trigger] g[i]).forwards.contains(
        (words[i], i + 1),
    ) by {
        assert(g[i].forward_main == Some((words[i], i + 1)));
        assert(node_sound(g, eos, topo, i));
    }
}

} // verus!
